//! Character-level text handling: searching, trimming, splitting, and the
//! decimal and hexadecimal forms of numbers.
use vstd::prelude::*;

verus! {

/// `String::push`: appends one character to the end of the string.
pub assume_specification[ String::push ](s: &mut String, ch: char)
    ensures
        final(s)@ == old(s)@.push(ch),
;

/// The characters of a string, in order.
pub fn chars_of(s: &str) -> (r: Vec<char>)
    ensures
        r@ == s@,
{
    let mut r: Vec<char> = Vec::new();
    for c in it: s.chars()
        invariant
            it.seq() == s@,
            r@ == it.seq().take(it.index() as int),
    {
        r.push(c);
    }
    r
}

/// The string made of the given characters.
pub fn string_of(cs: &[char]) -> (r: String)
    ensures
        r@ == cs@,
{
    let mut r = String::new();
    for i in 0..cs.len()
        invariant
            r@ == cs@.take(i as int),
    {
        r.push(cs[i]);
    }
    r
}

/// Whether two strings hold the same characters.
pub fn same(a: &str, b: &str) -> (r: bool)
    ensures
        r == (a@ == b@),
{
    let x = chars_of(a);
    let y = chars_of(b);
    same_chars(&x, &y)
}

/// Whether two character slices are equal.
pub fn same_chars(x: &[char], y: &[char]) -> (r: bool)
    ensures
        r == (x@ == y@),
{
    if x.len() != y.len() {
        return false;
    }
    for i in 0..x.len()
        invariant
            x@.len() == y@.len(),
            forall|j: int| 0 <= j < i ==> x@[j] == y@[j],
    {
        if x[i] != y[i] {
            return false;
        }
    }
    assert(x@ =~= y@);
    true
}

/// `pat` stands in `s` at position `i`.
pub open spec fn stands_at(s: Seq<char>, pat: Seq<char>, i: int) -> bool {
    0 <= i && i + pat.len() <= s.len() && s.subrange(i, i + pat.len()) == pat
}

/// `pat` occurs somewhere in `s`.
pub open spec fn has_sub(s: Seq<char>, pat: Seq<char>) -> bool {
    exists|i: int| #[trigger] stands_at(s, pat, i)
}

/// `s` begins with `pat`.
pub open spec fn has_prefix(s: Seq<char>, pat: Seq<char>) -> bool {
    stands_at(s, pat, 0)
}

/// `s` ends with `pat`.
pub open spec fn has_suffix(s: Seq<char>, pat: Seq<char>) -> bool {
    stands_at(s, pat, s.len() - pat.len())
}

fn match_at(s: &[char], pat: &[char], at: usize) -> (r: bool)
    requires
        at + pat@.len() <= s@.len(),
    ensures
        r == stands_at(s@, pat@, at as int),
{
    let n: usize = s.len();
    for k in 0..pat.len()
        invariant
            n == s@.len(),
            at + pat@.len() <= n,
            forall|j: int| 0 <= j < k ==> s@[at + j] == pat@[j],
    {
        if s[at + k] != pat[k] {
            assert(s@.subrange(at as int, at + pat@.len())[k as int] != pat@[k as int]);
            return false;
        }
    }
    assert(s@.subrange(at as int, at + pat@.len()) =~= pat@);
    true
}

/// Whether `pat` occurs in `s`.
pub fn contains(s: &str, pat: &str) -> (r: bool)
    ensures
        r == has_sub(s@, pat@),
{
    let x = chars_of(s);
    let y = chars_of(pat);
    let mut i: usize = 0;
    while i <= x.len()
        invariant
            i <= x@.len() + 1,
            x@ == s@,
            y@ == pat@,
            forall|j: int| 0 <= j < i ==> !#[trigger] stands_at(s@, pat@, j),
        decreases x@.len() + 1 - i,
    {
        if y.len() > x.len() - i {
            return false;
        }
        if match_at(&x, &y, i) {
            return true;
        }
        if i == x.len() {
            return false;
        }
        i = i + 1;
    }
    false
}

/// Whether `s` begins with `pat`.
pub fn starts_with(s: &str, pat: &str) -> (r: bool)
    ensures
        r == has_prefix(s@, pat@),
{
    let x = chars_of(s);
    let y = chars_of(pat);
    y.len() <= x.len() && match_at(&x, &y, 0)
}

/// Whether `s` ends with `pat`.
pub fn ends_with(s: &str, pat: &str) -> (r: bool)
    ensures
        r == has_suffix(s@, pat@),
{
    let x = chars_of(s);
    let y = chars_of(pat);
    if y.len() > x.len() {
        return false;
    }
    match_at(&x, &y, x.len() - y.len())
}

/// The characters with Unicode's `White_Space` property.
pub open spec fn white(c: char) -> bool {
    ||| '\u{9}' <= c <= '\u{d}'
    ||| c == '\u{20}'
    ||| c == '\u{85}'
    ||| c == '\u{a0}'
    ||| c == '\u{1680}'
    ||| '\u{2000}' <= c <= '\u{200a}'
    ||| c == '\u{2028}'
    ||| c == '\u{2029}'
    ||| c == '\u{202f}'
    ||| c == '\u{205f}'
    ||| c == '\u{3000}'
}

/// Whether the character is white space.
pub fn is_white(c: char) -> (r: bool)
    ensures
        r == white(c),
{
    ('\u{9}' <= c && c <= '\u{d}') || c == '\u{20}' || c == '\u{85}' || c == '\u{a0}' || c
        == '\u{1680}' || ('\u{2000}' <= c && c <= '\u{200a}') || c == '\u{2028}' || c == '\u{2029}'
        || c == '\u{202f}' || c == '\u{205f}' || c == '\u{3000}'
}

/// An ASCII letter or digit.
pub open spec fn ascii_alnum(c: char) -> bool {
    ||| '0' <= c <= '9'
    ||| 'A' <= c <= 'Z'
    ||| 'a' <= c <= 'z'
}

/// Whether the character is an ASCII letter or digit.
pub fn is_ascii_alnum(c: char) -> (r: bool)
    ensures
        r == ascii_alnum(c),
{
    ('0' <= c && c <= '9') || ('A' <= c && c <= 'Z') || ('a' <= c && c <= 'z')
}

/// `s` without the characters at its front that satisfy `drop`.
pub open spec fn strip_front(s: Seq<char>, drop: spec_fn(char) -> bool) -> Seq<char>
    decreases s.len(),
{
    if s.len() > 0 && drop(s[0]) {
        strip_front(s.skip(1), drop)
    } else {
        s
    }
}

/// `s` without the characters at its back that satisfy `drop`.
pub open spec fn strip_back(s: Seq<char>, drop: spec_fn(char) -> bool) -> Seq<char>
    decreases s.len(),
{
    if s.len() > 0 && drop(s.last()) {
        strip_back(s.drop_last(), drop)
    } else {
        s
    }
}

/// `s` without the characters at both ends that satisfy `drop`.
pub open spec fn strip(s: Seq<char>, drop: spec_fn(char) -> bool) -> Seq<char> {
    strip_back(strip_front(s, drop), drop)
}

/// `s` without white space at either end.
pub open spec fn trimmed(s: Seq<char>) -> Seq<char> {
    strip(s, |c: char| white(c))
}

/// `s` without quotation marks at either end.
pub open spec fn unquoted(s: Seq<char>) -> Seq<char> {
    strip(s, |c: char| c == '"')
}

/// `s` without the letters `v` and `V` at its front.
pub open spec fn without_v(s: Seq<char>) -> Seq<char> {
    strip_front(s, |c: char| c == 'v' || c == 'V')
}

proof fn lemma_strip_front(s: Seq<char>, drop: spec_fn(char) -> bool, i: int)
    requires
        0 <= i <= s.len(),
        forall|j: int| 0 <= j < i ==> drop(#[trigger] s[j]),
        i < s.len() ==> !drop(s[i]),
    ensures
        strip_front(s, drop) == s.skip(i),
    decreases i,
{
    if i == 0 {
        assert(s.skip(0) =~= s);
    } else {
        lemma_strip_front(s.skip(1), drop, i - 1);
        assert(s.skip(1).skip(i - 1) =~= s.skip(i));
    }
}

proof fn lemma_strip_back(s: Seq<char>, drop: spec_fn(char) -> bool, n: int)
    requires
        0 <= n <= s.len(),
        forall|j: int| n <= j < s.len() ==> drop(#[trigger] s[j]),
        n > 0 ==> !drop(s[n - 1]),
    ensures
        strip_back(s, drop) == s.take(n),
    decreases s.len() - n,
{
    if n == s.len() {
        assert(s.take(n) =~= s);
    } else {
        lemma_strip_back(s.drop_last(), drop, n);
        assert(s.drop_last().take(n) =~= s.take(n));
    }
}

proof fn lemma_strip_front_is_skip(s: Seq<char>, drop: spec_fn(char) -> bool)
    ensures
        strip_front(s, drop).len() <= s.len(),
        strip_front(s, drop) == s.skip(s.len() - strip_front(s, drop).len()),
    decreases s.len(),
{
    if s.len() > 0 && drop(s[0]) {
        lemma_strip_front_is_skip(s.skip(1), drop);
        assert(strip_front(s, drop) =~= s.skip(s.len() - strip_front(s, drop).len()));
    } else {
        assert(s.skip(0) =~= s);
    }
}

proof fn lemma_strip_back_is_take(s: Seq<char>, drop: spec_fn(char) -> bool)
    ensures
        strip_back(s, drop).len() <= s.len(),
        strip_back(s, drop) == s.take(strip_back(s, drop).len() as int),
    decreases s.len(),
{
    if s.len() > 0 && drop(s.last()) {
        lemma_strip_back_is_take(s.drop_last(), drop);
        assert(strip_back(s, drop) =~= s.take(strip_back(s, drop).len() as int));
    } else {
        assert(s.take(s.len() as int) =~= s);
    }
}

/// What is left without white space at either end stood in the text.
pub proof fn lemma_trimmed_is_part(s: Seq<char>)
    ensures
        exists|lo: int|
            0 <= lo && lo + trimmed(s).len() <= s.len() && trimmed(s) == #[trigger] s.subrange(
                lo,
                lo + trimmed(s).len(),
            ),
{
    let drop = |c: char| white(c);
    let f = strip_front(s, drop);
    lemma_strip_front_is_skip(s, drop);
    lemma_strip_back_is_take(f, drop);
    let lo = s.len() - f.len();
    assert(trimmed(s) =~= s.subrange(lo, lo + trimmed(s).len()));
}

/// The part `lo..hi` of a character slice.
pub fn part(s: &[char], lo: usize, hi: usize) -> (r: Vec<char>)
    requires
        lo <= hi <= s@.len(),
    ensures
        r@ == s@.subrange(lo as int, hi as int),
{
    let mut r: Vec<char> = Vec::new();
    let mut i: usize = lo;
    while i < hi
        invariant
            lo <= i <= hi <= s@.len(),
            r@ == s@.subrange(lo as int, i as int),
        decreases hi - i,
    {
        r.push(s[i]);
        i = i + 1;
        assert(s@.subrange(lo as int, i as int) =~= s@.subrange(lo as int, i - 1).push(s@[i - 1]));
    }
    r
}

/// The slice without white space at either end.
pub fn trim(s: &[char]) -> (r: Vec<char>)
    ensures
        r@ == trimmed(s@),
{
    let ghost drop = |c: char| white(c);
    let mut lo: usize = 0;
    while lo < s.len() && is_white(s[lo])
        invariant
            lo <= s@.len(),
            forall|j: int| 0 <= j < lo ==> white(#[trigger] s@[j]),
        decreases s@.len() - lo,
    {
        lo = lo + 1;
    }
    proof {
        lemma_strip_front(s@, drop, lo as int);
    }
    let mut hi: usize = s.len();
    while hi > lo && is_white(s[hi - 1])
        invariant
            lo <= hi <= s@.len(),
            forall|j: int| hi <= j < s@.len() ==> white(#[trigger] s@[j]),
        decreases hi,
    {
        hi = hi - 1;
    }
    proof {
        let front = s@.skip(lo as int);
        assert forall|j: int| hi - lo <= j < front.len() implies drop(#[trigger] front[j]) by {
            assert(front[j] == s@[j + lo]);
        }
        lemma_strip_back(front, drop, hi - lo);
        assert(front.take(hi - lo) =~= s@.subrange(lo as int, hi as int));
    }
    part(s, lo, hi)
}

/// The slice without quotation marks at either end.
pub fn unquote(s: &[char]) -> (r: Vec<char>)
    ensures
        r@ == unquoted(s@),
{
    let ghost drop = |c: char| c == '"';
    let mut lo: usize = 0;
    while lo < s.len() && s[lo] == '"'
        invariant
            lo <= s@.len(),
            forall|j: int| 0 <= j < lo ==> #[trigger] s@[j] == '"',
        decreases s@.len() - lo,
    {
        lo = lo + 1;
    }
    proof {
        lemma_strip_front(s@, drop, lo as int);
    }
    let mut hi: usize = s.len();
    while hi > lo && s[hi - 1] == '"'
        invariant
            lo <= hi <= s@.len(),
            forall|j: int| hi <= j < s@.len() ==> #[trigger] s@[j] == '"',
        decreases hi,
    {
        hi = hi - 1;
    }
    proof {
        let front = s@.skip(lo as int);
        assert forall|j: int| hi - lo <= j < front.len() implies drop(#[trigger] front[j]) by {
            assert(front[j] == s@[j + lo]);
        }
        lemma_strip_back(front, drop, hi - lo);
        assert(front.take(hi - lo) =~= s@.subrange(lo as int, hi as int));
    }
    part(s, lo, hi)
}

/// The slice without the letters `v` and `V` at its front.
pub fn drop_v(s: &[char]) -> (r: Vec<char>)
    ensures
        r@ == without_v(s@),
{
    let ghost drop = |c: char| c == 'v' || c == 'V';
    let mut lo: usize = 0;
    while lo < s.len() && (s[lo] == 'v' || s[lo] == 'V')
        invariant
            lo <= s@.len(),
            forall|j: int| 0 <= j < lo ==> (#[trigger] s@[j] == 'v' || s@[j] == 'V'),
        decreases s@.len() - lo,
    {
        lo = lo + 1;
    }
    proof {
        lemma_strip_front(s@, drop, lo as int);
        assert(s@.skip(lo as int) =~= s@.subrange(lo as int, s@.len() as int));
    }
    part(s, lo, s.len())
}

/// `s` cut at every character that is in `seps`; never empty.
pub open spec fn pieces(s: Seq<char>, seps: Seq<char>) -> Seq<Seq<char>>
    decreases s.len(),
{
    if s.len() == 0 {
        seq![Seq::<char>::empty()]
    } else {
        let front = pieces(s.drop_last(), seps);
        if seps.contains(s.last()) {
            front.push(Seq::<char>::empty())
        } else {
            front.drop_last().push(front.last().push(s.last()))
        }
    }
}

/// The characters of each piece.
pub open spec fn piece_views(v: Seq<Vec<char>>) -> Seq<Seq<char>> {
    Seq::new(v.len(), |i: int| v[i]@)
}

pub proof fn lemma_pieces_nonempty(s: Seq<char>, seps: Seq<char>)
    ensures
        pieces(s, seps).len() > 0,
    decreases s.len(),
{
    if s.len() > 0 {
        lemma_pieces_nonempty(s.drop_last(), seps);
    }
}

fn is_one_of(c: char, seps: &[char]) -> (r: bool)
    ensures
        r == seps@.contains(c),
{
    for i in 0..seps.len()
        invariant
            forall|j: int| 0 <= j < i ==> seps@[j] != c,
    {
        if seps[i] == c {
            return true;
        }
    }
    false
}

/// The slice cut at every character that is in `seps`.
pub fn split(s: &[char], seps: &[char]) -> (r: Vec<Vec<char>>)
    ensures
        piece_views(r@) == pieces(s@, seps@),
        r@.len() > 0,
{
    let mut done: Vec<Vec<char>> = Vec::new();
    let mut cur: Vec<char> = Vec::new();
    assert(s@.take(0) =~= Seq::<char>::empty());
    assert(piece_views(done@).push(cur@) =~= pieces(s@.take(0), seps@));
    for i in 0..s.len()
        invariant
            piece_views(done@).push(cur@) == pieces(s@.take(i as int), seps@),
    {
        let ghost before = piece_views(done@).push(cur@);
        let ghost old_done = piece_views(done@);
        assert(s@.take(i + 1).drop_last() =~= s@.take(i as int));
        assert(before.drop_last() =~= piece_views(done@));
        if is_one_of(s[i], seps) {
            let ghost c = cur@;
            done.push(cur);
            cur = Vec::new();
            assert(piece_views(done@) =~= old_done.push(c));
            assert(piece_views(done@).push(cur@) =~= pieces(s@.take(i + 1), seps@));
        } else {
            cur.push(s[i]);
            assert(piece_views(done@).push(cur@) =~= pieces(s@.take(i + 1), seps@));
        }
    }
    let ghost c = cur@;
    let ghost old_done = piece_views(done@);
    done.push(cur);
    assert(piece_views(done@) =~= old_done.push(c));
    assert(s@.take(s@.len() as int) =~= s@);
    done
}

/// Every character is a decimal digit.
pub open spec fn all_digits(s: Seq<char>) -> bool {
    forall|i: int| 0 <= i < s.len() ==> '0' <= #[trigger] s[i] <= '9'
}

/// The number written by a row of decimal digits.
pub open spec fn digits_value(s: Seq<char>) -> nat
    decreases s.len(),
{
    if s.len() == 0 {
        0
    } else {
        10 * digits_value(s.drop_last()) + ((s.last() as int - '0' as int) as nat)
    }
}

/// What a text reads as an unsigned 64-bit number: an optional plus sign and at
/// least one decimal digit, of a value that fits.
pub open spec fn u64_read(s: Seq<char>) -> Option<u64> {
    let d = if s.len() > 0 && s[0] == '+' {
        s.skip(1)
    } else {
        s
    };
    if d.len() > 0 && all_digits(d) && digits_value(d) <= u64::MAX {
        Some(digits_value(d) as u64)
    } else {
        None
    }
}

/// Reads an unsigned 64-bit number.
pub fn parse_u64(s: &[char]) -> (r: Option<u64>)
    ensures
        r == u64_read(s@),
{
    let start: usize = if s.len() > 0 && s[0] == '+' {
        1
    } else {
        0
    };
    let ghost d = s@.skip(start as int);
    assert(start == 0 ==> d =~= s@);
    if start == s.len() {
        return None;
    }
    let mut acc: u64 = 0;
    let mut over = false;
    let mut i: usize = start;
    while i < s.len()
        invariant
            start <= i <= s@.len(),
            d == s@.skip(start as int),
            u64_read(s@) == (if d.len() > 0 && all_digits(d) && digits_value(d) <= u64::MAX {
                Some(digits_value(d) as u64)
            } else {
                None
            }),
            forall|j: int| 0 <= j < i - start ==> '0' <= #[trigger] d[j] <= '9',
            over ==> digits_value(d.take(i - start)) > u64::MAX,
            !over ==> acc == digits_value(d.take(i - start)),
        decreases s@.len() - i,
    {
        let c = s[i];
        assert(c == d[i - start]);
        if !('0' <= c && c <= '9') {
            return None;
        }
        assert(d.take(i - start + 1).drop_last() =~= d.take(i - start));
        let v: u64 = (c as u32 - '0' as u32) as u64;
        if over {
        } else if acc > (u64::MAX - v) / 10 {
            over = true;
        } else {
            acc = acc * 10 + v;
        }
        i = i + 1;
    }
    assert(d.take(i - start) =~= d);
    if over {
        None
    } else {
        Some(acc)
    }
}

/// The decimal digit `d`.
pub open spec fn digit(d: nat) -> char {
    (('0' as u32) + d) as char
}

/// A number in decimal, without leading zeros.
pub open spec fn decimal(n: nat) -> Seq<char>
    decreases n,
{
    if n < 10 {
        seq![digit(n)]
    } else {
        decimal(n / 10).push(digit(n % 10))
    }
}

/// `s` with zeros in front until it is at least `width` long.
pub open spec fn zero_padded(s: Seq<char>, width: nat) -> Seq<char> {
    if s.len() >= width {
        s
    } else {
        Seq::new((width - s.len()) as nat, |i: int| '0') + s
    }
}

fn digit_char(d: u64) -> (r: char)
    requires
        d < 10,
    ensures
        r == digit(d as nat),
{
    let b: u8 = 48 + d as u8;
    b as char
}

fn decimal_chars(n: u64) -> (r: Vec<char>)
    ensures
        r@ == decimal(n as nat),
    decreases n,
{
    if n < 10 {
        let mut v: Vec<char> = Vec::new();
        v.push(digit_char(n));
        assert(v@ =~= seq![digit(n as nat)]);
        v
    } else {
        let mut v = decimal_chars(n / 10);
        v.push(digit_char(n % 10));
        v
    }
}

/// Appends characters to a string.
pub fn push_all(s: &mut String, cs: &[char])
    ensures
        final(s)@ == old(s)@ + cs@,
{
    for i in 0..cs.len()
        invariant
            s@ == old(s)@ + cs@.take(i as int),
    {
        s.push(cs[i]);
        assert(cs@.take(i + 1) =~= cs@.take(i as int).push(cs@[i as int]));
    }
    assert(cs@.take(cs@.len() as int) =~= cs@);
}

/// Appends a text to a string.
pub fn push_text(s: &mut String, t: &str)
    ensures
        final(s)@ == old(s)@ + t@,
{
    let cs = chars_of(t);
    push_all(s, &cs);
}

/// Appends a number in decimal.
pub fn push_decimal(s: &mut String, n: u64)
    ensures
        final(s)@ == old(s)@ + decimal(n as nat),
{
    let cs = decimal_chars(n);
    push_all(s, &cs);
}

/// Appends a number in decimal, with zeros in front up to `width` characters.
pub fn push_padded(s: &mut String, n: u64, width: usize)
    ensures
        final(s)@ == old(s)@ + zero_padded(decimal(n as nat), width as nat),
{
    let cs = decimal_chars(n);
    if cs.len() < width {
        let fill: usize = width - cs.len();
        for i in 0..fill
            invariant
                s@ == old(s)@ + Seq::new(i as nat, |k: int| '0'),
        {
            s.push('0');
            assert(Seq::new((i + 1) as nat, |k: int| '0') =~= Seq::new(i as nat, |k: int| '0').push(
                '0',
            ));
        }
        let ghost mid = s@;
        push_all(s, &cs);
        assert(s@ =~= old(s)@ + zero_padded(decimal(n as nat), width as nat));
    } else {
        push_all(s, &cs);
    }
}

/// A number in decimal with its sign, with zeros up to `width` characters, the sign counted.
pub open spec fn padded_signed(n: int, width: nat) -> Seq<char> {
    if n >= 0 {
        zero_padded(decimal(n as nat), width)
    } else if width == 0 {
        seq!['-'] + decimal((-n) as nat)
    } else {
        seq!['-'] + zero_padded(decimal((-n) as nat), (width - 1) as nat)
    }
}

/// Appends a number in decimal with its sign, with zeros up to `width` characters.
pub fn push_padded_signed(s: &mut String, n: i32, width: usize)
    ensures
        final(s)@ == old(s)@ + padded_signed(n as int, width as nat),
{
    if n >= 0 {
        push_padded(s, n as u64, width);
    } else {
        s.push('-');
        let size: i64 = -(n as i64);
        push_padded(
            s,
            size as u64,
            if width == 0 {
                0
            } else {
                width - 1
            },
        );
        assert(s@ =~= old(s)@ + padded_signed(n as int, width as nat));
    }
}

/// The lowercase hexadecimal digit `d`.
pub open spec fn hex_digit(d: nat) -> char {
    if d < 10 {
        digit(d)
    } else {
        (('a' as u32) + (d - 10)) as char
    }
}

/// A byte as two lowercase hexadecimal digits.
pub open spec fn hex_pair(b: u8) -> Seq<char> {
    seq![hex_digit((b / 16) as nat), hex_digit((b % 16) as nat)]
}

fn hex_char(d: u8) -> (r: char)
    requires
        d < 16,
    ensures
        r == hex_digit(d as nat),
{
    if d < 10 {
        (48 + d) as char
    } else {
        (97 + (d - 10)) as char
    }
}

/// Appends a byte as two lowercase hexadecimal digits.
pub fn push_hex_pair(s: &mut String, b: u8)
    ensures
        final(s)@ == old(s)@ + hex_pair(b),
{
    s.push(hex_char(b / 16));
    s.push(hex_char(b % 16));
    assert(s@ =~= old(s)@ + hex_pair(b));
}

/// `c` with an ASCII capital made small.
pub open spec fn ascii_lower(c: char) -> char {
    if 'A' <= c <= 'Z' {
        (c as u32 + 32) as char
    } else {
        c
    }
}

/// Equal but for the case of ASCII letters.
pub open spec fn same_letters(a: Seq<char>, b: Seq<char>) -> bool {
    a.len() == b.len() && forall|i: int|
        0 <= i < a.len() ==> ascii_lower(#[trigger] a[i]) == ascii_lower(b[i])
}

fn lower(c: char) -> (r: char)
    ensures
        r == ascii_lower(c),
{
    if 'A' <= c && c <= 'Z' {
        let b: u8 = c as u8;
        (b + 32) as char
    } else {
        c
    }
}

/// Whether two texts are equal but for the case of ASCII letters.
pub fn equal_ignoring_ascii_case(a: &str, b: &str) -> (r: bool)
    ensures
        r == same_letters(a@, b@),
{
    let x = chars_of(a);
    let y = chars_of(b);
    if x.len() != y.len() {
        return false;
    }
    for i in 0..x.len()
        invariant
            x@ == a@,
            y@ == b@,
            x@.len() == y@.len(),
            forall|j: int| 0 <= j < i ==> ascii_lower(#[trigger] x@[j]) == ascii_lower(y@[j]),
    {
        if lower(x[i]) != lower(y[i]) {
            return false;
        }
    }
    true
}

/// `a` comes before `b` in the order of a dictionary, by character number.
pub open spec fn lex_before(a: Seq<char>, b: Seq<char>) -> bool
    decreases a.len(),
{
    if b.len() == 0 {
        false
    } else if a.len() == 0 {
        true
    } else if a[0] != b[0] {
        a[0] < b[0]
    } else {
        lex_before(a.skip(1), b.skip(1))
    }
}

/// The order of a dictionary is strict and total.
pub proof fn lemma_lex_order(a: Seq<char>, b: Seq<char>, c: Seq<char>)
    ensures
        !lex_before(a, a),
        lex_before(a, b) && lex_before(b, c) ==> lex_before(a, c),
        a != b ==> lex_before(a, b) || lex_before(b, a),
        lex_before(a, b) ==> !lex_before(b, a),
    decreases a.len() + b.len() + c.len(),
{
    if a.len() > 0 {
        if b.len() > 0 && c.len() > 0 {
            lemma_lex_order(a.skip(1), b.skip(1), c.skip(1));
        } else if b.len() > 0 {
            lemma_lex_order(a.skip(1), b.skip(1), c);
        } else {
            lemma_lex_order(a.skip(1), b, c);
        }
        if b.len() > 0 && a[0] == b[0] && a.skip(1) == b.skip(1) {
            assert(a =~= b) by {
                assert forall|i: int| 0 <= i < a.len() implies a[i] == b[i] by {
                    if i > 0 {
                        assert(a.skip(1)[i - 1] == b.skip(1)[i - 1]);
                    }
                }
                assert(a.skip(1).len() == b.skip(1).len());
            }
        }
    } else if b.len() == 0 {
        assert(a =~= b);
    }
}

/// Whether one slice comes before another in the order of a dictionary.
pub fn precedes(x: &[char], y: &[char]) -> (r: bool)
    ensures
        r == lex_before(x@, y@),
{
    let n: usize = if x.len() <= y.len() {
        x.len()
    } else {
        y.len()
    };
    assert(x@.skip(0) =~= x@);
    assert(y@.skip(0) =~= y@);
    for i in 0..n
        invariant
            n <= x@.len(),
            n <= y@.len(),
            lex_before(x@, y@) == lex_before(x@.skip(i as int), y@.skip(i as int)),
    {
        if x[i] != y[i] {
            return x[i] < y[i];
        }
        assert(x@.skip(i as int).skip(1) =~= x@.skip(i + 1));
        assert(y@.skip(i as int).skip(1) =~= y@.skip(i + 1));
    }
    x.len() < y.len()
}

proof fn lemma_value_is_fold(s: Seq<char>)
    requires
        all_digits(s),
    ensures
        digits_value(s) == s.fold_left(0int, |a: int, c: char| 10 * a + (c as int - 48)),
    decreases s.len(),
{
    if s.len() > 0 {
        let d = s.drop_last();
        assert forall|i: int| 0 <= i < d.len() implies '0' <= #[trigger] d[i] <= '9' by {
            assert(d[i] == s[i]);
        }
        lemma_value_is_fold(d);
    } else {
        assert(s =~= Seq::empty());
    }
}

/// What is read as a number is made of digits, behind a plus sign or not, and has the value of
/// those digits; anything else, or a number that is too large, is not read.
pub proof fn law_digits_have_their_value(d: Seq<char>)
    requires
        d.len() == 0 || d[0] != '+',
    ensures
        ({
            let v = d.fold_left(0int, |a: int, c: char| 10 * a + (c as int - 48));
            let fit = d.len() > 0 && (forall|i: int| 0 <= i < d.len() ==> '0' <= #[trigger] d[i] <= '9')
                && v <= u64::MAX;
            &&& fit ==> u64_read(d) == Some(v as u64) && u64_read(seq!['+'] + d) == Some(v as u64)
            &&& !fit ==> u64_read(d) is None && u64_read(seq!['+'] + d) is None
        }),
{
    if all_digits(d) {
        lemma_value_is_fold(d);
    }
    assert((seq!['+'] + d).skip(1) =~= d);
}

/// A number is written in digits that have its value, without a zero in front.
pub proof fn lemma_decimal_digits(n: nat)
    ensures
        decimal(n).len() > 0,
        all_digits(decimal(n)),
        digits_value(decimal(n)) == n,
        n > 0 ==> decimal(n)[0] != '0',
    decreases n,
{
    if n >= 10 {
        lemma_decimal_digits(n / 10);
        let f = decimal(n / 10);
        let s = decimal(n);
        assert(s.drop_last() =~= f);
        assert forall|i: int| 0 <= i < s.len() implies '0' <= #[trigger] s[i] <= '9' by {
            if i < f.len() {
                assert(s[i] == f[i]);
            }
        }
        assert(s[0] == f[0]);
    } else {
        let s = decimal(n);
        assert(s.drop_last() =~= Seq::empty());
        assert(digits_value(s.drop_last()) == 0);
    }
}

proof fn lemma_zeros_add_nothing(k: nat, s: Seq<char>)
    ensures
        digits_value(Seq::new(k, |i: int| '0') + s) == digits_value(s),
    decreases s.len(), k,
{
    let z = Seq::new(k, |i: int| '0');
    if s.len() > 0 {
        lemma_zeros_add_nothing(k, s.drop_last());
        assert((z + s).drop_last() =~= z + s.drop_last());
    } else if k > 0 {
        lemma_zeros_add_nothing((k - 1) as nat, s);
        assert((z + s).drop_last() =~= Seq::new((k - 1) as nat, |i: int| '0') + s);
    } else {
        assert(z + s =~= s);
    }
}

/// A number that is written, with zeros in front or without, is read back; it is written with no
/// more zeros in front than the width asks for.
pub proof fn law_numbers_are_read_back(n: u64, width: nat)
    ensures
        u64_read(decimal(n as nat)) == Some(n),
        u64_read(zero_padded(decimal(n as nat), width)) == Some(n),
        zero_padded(decimal(n as nat), width).len() >= width,
        n > 0 ==> decimal(n as nat)[0] != '0',
        zero_padded(decimal(n as nat), width).len() > width ==> zero_padded(
            decimal(n as nat),
            width,
        ) == decimal(n as nat),
{
    let s = decimal(n as nat);
    let p = zero_padded(s, width);
    lemma_decimal_digits(n as nat);
    if s.len() < width {
        let k = (width - s.len()) as nat;
        lemma_zeros_add_nothing(k, s);
        assert forall|i: int| 0 <= i < p.len() implies '0' <= #[trigger] p[i] <= '9' by {
            if i >= k {
                assert(p[i] == s[i - k]);
            }
        }
    }
    assert('0' <= s[0] <= '9');
    assert('0' <= p[0] <= '9');
}

/// A number is written in few digits.
pub proof fn lemma_decimal_is_short(n: nat)
    ensures
        n < 100 ==> decimal(n).len() <= 2,
        n < 10_000 ==> decimal(n).len() <= 4,
{
    reveal_with_fuel(decimal, 4);
}

proof fn lemma_strip_front_ends(s: Seq<char>, drop: spec_fn(char) -> bool)
    ensures
        ({
            let r = strip_front(s, drop);
            let k = s.len() - r.len();
            &&& 0 <= k <= s.len()
            &&& r == s.skip(k)
            &&& forall|i: int| 0 <= i < k ==> drop(#[trigger] s[i])
            &&& r.len() > 0 ==> !drop(r[0])
        }),
    decreases s.len(),
{
    lemma_strip_front_is_skip(s, drop);
    if s.len() > 0 && drop(s[0]) {
        lemma_strip_front_ends(s.skip(1), drop);
        let k = s.len() - strip_front(s, drop).len();
        assert forall|i: int| 0 <= i < k implies drop(#[trigger] s[i]) by {
            if i > 0 {
                assert(s.skip(1)[i - 1] == s[i]);
            }
        }
    }
}

proof fn lemma_strip_back_ends(s: Seq<char>, drop: spec_fn(char) -> bool)
    ensures
        ({
            let r = strip_back(s, drop);
            &&& r.len() <= s.len()
            &&& r == s.take(r.len() as int)
            &&& forall|i: int| r.len() <= i < s.len() ==> drop(#[trigger] s[i])
            &&& r.len() > 0 ==> !drop(r.last())
        }),
    decreases s.len(),
{
    lemma_strip_back_is_take(s, drop);
    if s.len() > 0 && drop(s.last()) {
        lemma_strip_back_ends(s.drop_last(), drop);
        assert forall|i: int| strip_back(s, drop).len() <= i < s.len() implies drop(
            #[trigger] s[i],
        ) by {
            if i < s.len() - 1 {
                assert(s.drop_last()[i] == s[i]);
            }
        }
    }
}

/// A text that begins and ends otherwise has no white space to take away.
pub proof fn lemma_trimmed_same(s: Seq<char>)
    requires
        s.len() > 0,
        !white(s[0]),
        !white(s.last()),
    ensures
        trimmed(s) == s,
{
    let drop = |c: char| white(c);
    assert(strip_front(s, drop) == s);
    assert(strip_back(s, drop) == s);
}

/// Trimming takes away white space at both ends, all of it, and nothing else.
pub proof fn law_trimming_takes_white_ends(s: Seq<char>)
    ensures
        exists|lo: int, hi: int|
            #![trigger s.subrange(lo, hi)]
            0 <= lo <= hi <= s.len() && trimmed(s) == s.subrange(lo, hi) && (forall|i: int|
                0 <= i < lo || hi <= i < s.len() ==> white(#[trigger] s[i])) && (lo < hi ==> !white(
                s[lo],
            ) && !white(s[hi - 1])),
        white(' ') && white('\t') && white('\n') && white('\r'),
        forall|c: char| '!' <= c <= '~' ==> !#[trigger] white(c),
{
    let drop = |c: char| white(c);
    let f = strip_front(s, drop);
    lemma_strip_front_ends(s, drop);
    lemma_strip_back_ends(f, drop);
    let lo = s.len() - f.len();
    let hi = lo + trimmed(s).len();
    assert(trimmed(s) =~= s.subrange(lo, hi));
    assert forall|i: int| 0 <= i < lo || hi <= i < s.len() implies white(#[trigger] s[i]) by {
        if i < lo {
            assert(drop(s[i]));
        } else {
            assert(f[i - lo] == s[i]);
            assert(drop(f[i - lo]));
        }
    }
    if lo < hi {
        assert(f[0] == s[lo]);
        assert(trimmed(s).last() == s[hi - 1]);
    }
}

/// Splitting cuts at each separator: there is one piece more than there are separators, none is
/// left in a piece, and the pieces together are all other characters, in their order.
pub proof fn law_split_cuts_at_each_separator(s: Seq<char>, seps: Seq<char>)
    ensures
        pieces(s, seps).len() == s.filter(|c: char| seps.contains(c)).len() + 1,
        forall|i: int, j: int|
            0 <= i < pieces(s, seps).len() && 0 <= j < pieces(s, seps)[i].len()
                ==> !seps.contains(#[trigger] pieces(s, seps)[i][j]),
        pieces(s, seps).fold_left(Seq::empty(), |a: Seq<char>, p: Seq<char>| a + p) == s.filter(
            |c: char| !seps.contains(c),
        ),
    decreases s.len(),
{
    reveal(Seq::filter);
    let join = |a: Seq<char>, p: Seq<char>| a + p;
    let sep = |c: char| seps.contains(c);
    let other = |c: char| !seps.contains(c);
    let all = pieces(s, seps);
    if s.len() == 0 {
        assert(s.filter(sep) =~= s);
        assert(s.filter(other) =~= s);
        let one = seq![Seq::<char>::empty()];
        assert(one.drop_last() =~= Seq::empty());
        assert(one.drop_last().fold_left(Seq::empty(), join) == Seq::<char>::empty());
        assert(all.fold_left(Seq::empty(), join) =~= s);
    } else {
        let d = s.drop_last();
        let front = pieces(d, seps);
        law_split_cuts_at_each_separator(d, seps);
        lemma_pieces_nonempty(d, seps);
        if seps.contains(s.last()) {
            assert(all.drop_last() =~= front);
            assert(all.fold_left(Seq::empty(), join) =~= front.fold_left(Seq::empty(), join));
            assert forall|i: int, j: int| 0 <= i < all.len() && 0 <= j < all[i].len() implies !seps.contains(
                #[trigger] all[i][j],
            ) by {
                if i < front.len() {
                    assert(all[i] == front[i]);
                    assert(!seps.contains(front[i][j]));
                }
            }
        } else {
            assert(all.drop_last() =~= front.drop_last());
            let head = front.drop_last().fold_left(Seq::empty(), join);
            assert(front.fold_left(Seq::empty(), join) == head + front.last());
            assert(all.fold_left(Seq::empty(), join) == head + front.last().push(s.last()));
            assert(head + front.last().push(s.last()) =~= (head + front.last()).push(s.last()));
            assert forall|i: int, j: int| 0 <= i < all.len() && 0 <= j < all[i].len() implies !seps.contains(
                #[trigger] all[i][j],
            ) by {
                if i < front.len() - 1 {
                    assert(all[i] == front[i]);
                    assert(!seps.contains(front[i][j]));
                } else if j < front.last().len() {
                    assert(all[i][j] == front[front.len() - 1][j]);
                    assert(!seps.contains(front[front.len() - 1][j]));
                }
            }
        }
    }
}

/// A text comes before another where it is the beginning of it, or has the smaller character
/// where they first differ.
pub proof fn law_dictionary_order(a: Seq<char>, b: Seq<char>, k: int)
    requires
        0 <= k <= a.len(),
        k <= b.len(),
        forall|i: int| 0 <= i < k ==> #[trigger] a[i] == b[i],
    ensures
        k < a.len() && k < b.len() && a[k] != b[k] ==> lex_before(a, b) == (a[k] < b[k]),
        k == a.len() ==> lex_before(a, b) == (a.len() < b.len()),
        k == b.len() ==> !lex_before(a, b),
    decreases k,
{
    if k > 0 {
        assert(a[0] == b[0]);
        assert forall|i: int| 0 <= i < k - 1 implies #[trigger] a.skip(1)[i] == b.skip(1)[i] by {
            assert(a[i + 1] == b[i + 1]);
        }
        law_dictionary_order(a.skip(1), b.skip(1), k - 1);
    }
}

/// Where a text begins with another, ends with it or holds it.
pub proof fn law_parts_of_a_text(s: Seq<char>, p: Seq<char>, before: Seq<char>, after: Seq<char>)
    ensures
        has_prefix(p + after, p),
        has_suffix(before + p, p),
        has_sub(before + p + after, p),
        has_prefix(s, p) ==> s == p + s.skip(p.len() as int),
        has_suffix(s, p) ==> s == s.take(s.len() - p.len()) + p,
        has_sub(s, p) ==> exists|i: int|
            0 <= i && i + p.len() <= s.len() && #[trigger] s.subrange(i, i + p.len()) == p,
{
    assert((p + after).subrange(0, p.len() as int) =~= p);
    assert((before + p).subrange(before.len() as int, (before.len() + p.len()) as int) =~= p);
    let all = before + p + after;
    assert(all.subrange(before.len() as int, (before.len() + p.len()) as int) =~= p);
    assert(stands_at(all, p, before.len() as int));
    if has_prefix(s, p) {
        assert(s =~= p + s.skip(p.len() as int)) by {
            assert forall|i: int| 0 <= i < p.len() implies s[i] == #[trigger] p[i] by {
                assert(s.subrange(0, p.len() as int)[i] == p[i]);
            }
        }
    }
    if has_suffix(s, p) {
        let k = s.len() - p.len();
        assert(s =~= s.take(k) + p) by {
            assert forall|i: int| 0 <= i < p.len() implies s[k + i] == #[trigger] p[i] by {
                assert(s.subrange(k, k + p.len())[i] == p[i]);
            }
        }
    }
}

/// Letters are the same where they are, or where one is the capital of the other.
pub proof fn law_capitals_are_the_same_letters(a: Seq<char>, b: Seq<char>)
    ensures
        same_letters(a, b) <==> a.len() == b.len() && forall|i: int|
            0 <= i < a.len() ==> (#[trigger] a[i] == b[i] || ('A' <= a[i] <= 'Z' && b[i] as int
                == a[i] as int + 32) || ('A' <= b[i] <= 'Z' && a[i] as int == b[i] as int + 32)),
{
    if same_letters(a, b) {
        assert forall|i: int| 0 <= i < a.len() implies (#[trigger] a[i] == b[i] || ('A' <= a[i]
            <= 'Z' && b[i] as int == a[i] as int + 32) || ('A' <= b[i] <= 'Z' && a[i] as int
            == b[i] as int + 32)) by {
            assert(ascii_lower(a[i]) == ascii_lower(b[i]));
        }
    }
}

/// A text without separators is one piece.
pub proof fn lemma_one_piece(s: Seq<char>, seps: Seq<char>)
    requires
        forall|i: int| 0 <= i < s.len() ==> !seps.contains(#[trigger] s[i]),
    ensures
        pieces(s, seps) == seq![s],
    decreases s.len(),
{
    if s.len() > 0 {
        let d = s.drop_last();
        assert forall|i: int| 0 <= i < d.len() implies !seps.contains(#[trigger] d[i]) by {
            assert(d[i] == s[i]);
        }
        lemma_one_piece(d, seps);
        assert(s[s.len() - 1] == s.last());
        assert(d.push(s.last()) =~= s);
        assert(pieces(s, seps) =~= seq![s]);
    } else {
        assert(s =~= Seq::empty());
    }
}

/// What stands behind the last separator is the last piece.
pub proof fn lemma_piece_behind(a: Seq<char>, sep: char, b: Seq<char>, seps: Seq<char>)
    requires
        seps.contains(sep),
        forall|i: int| 0 <= i < b.len() ==> !seps.contains(#[trigger] b[i]),
    ensures
        pieces(a.push(sep) + b, seps) == pieces(a, seps).push(b),
    decreases b.len(),
{
    let s = a.push(sep) + b;
    if b.len() > 0 {
        let d = b.drop_last();
        assert forall|i: int| 0 <= i < d.len() implies !seps.contains(#[trigger] d[i]) by {
            assert(d[i] == b[i]);
        }
        lemma_piece_behind(a, sep, d, seps);
        assert(s.drop_last() =~= a.push(sep) + d);
        assert(b[b.len() - 1] == b.last());
        assert(d.push(b.last()) =~= b);
        assert(pieces(s, seps) =~= pieces(a, seps).push(b));
    } else {
        assert(s =~= a.push(sep));
        assert(s.drop_last() =~= a);
        assert(b =~= Seq::empty());
    }
}

} // verus!
