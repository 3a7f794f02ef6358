//! Decimal and hexadecimal rendering of integers, and character-level
//! string building.

use vstd::prelude::*;

verus! {

/// Appends `c` to `s` (`String::push`).
#[verifier::external_body]
pub(crate) fn push_char(s: &mut String, c: char)
    ensures
        final(s)@ == old(s)@.push(c),
{
    s.push(c);
}

/// The ASCII digit for `d` in `0..16`, lower-case for `a..f`.
pub open spec fn digit_char(d: int) -> char {
    if d < 10 {
        (48 + d) as char
    } else {
        (87 + d) as char
    }
}

/// The decimal digits of `n`, most significant first, without leading zeros.
pub open spec fn decimal_nat(n: nat) -> Seq<char>
    decreases n,
{
    if n < 10 {
        seq![digit_char(n as int)]
    } else {
        decimal_nat(n / 10).push(digit_char((n % 10) as int))
    }
}

/// The decimal rendering of `n`, with a leading `-` when negative.
pub open spec fn decimal(n: int) -> Seq<char> {
    if n < 0 {
        seq!['-'] + decimal_nat((-n) as nat)
    } else {
        decimal_nat(n as nat)
    }
}

/// The `width` least significant hex digits of `n`, most significant first.
pub open spec fn hex_fixed(n: nat, width: nat) -> Seq<char>
    decreases width,
{
    if width == 0 {
        Seq::empty()
    } else {
        hex_fixed(n / 16, (width - 1) as nat).push(digit_char((n % 16) as int))
    }
}

/// The hex digits of `n`, most significant first, without leading zeros.
pub open spec fn hex_nat(n: nat) -> Seq<char>
    decreases n,
{
    if n < 16 {
        seq![digit_char(n as int)]
    } else {
        hex_nat(n / 16).push(digit_char((n % 16) as int))
    }
}

fn digit(d: u64) -> (c: char)
    requires
        d < 16,
    ensures
        c == digit_char(d as int),
{
    if d < 10 {
        ((48 + d) as u8) as char
    } else {
        ((87 + d) as u8) as char
    }
}

/// Appends the decimal digits of `n`.
pub fn push_decimal_u64(s: &mut String, n: u64)
    ensures
        final(s)@ == old(s)@ + decimal_nat(n as nat),
    decreases n,
{
    if n >= 10 {
        push_decimal_u64(s, n / 10);
    }
    push_char(s, digit(n % 10));
    assert(final(s)@ =~= old(s)@ + decimal_nat(n as nat));
}

/// Appends the decimal rendering of `n`.
pub fn push_decimal_i64(s: &mut String, n: i64)
    ensures
        final(s)@ == old(s)@ + decimal(n as int),
{
    if n < 0 {
        push_char(s, '-');
        let m: u64 = if n == i64::MIN {
            9223372036854775808u64
        } else {
            (-n) as u64
        };
        push_decimal_u64(s, m);
        assert(final(s)@ =~= old(s)@ + decimal(n as int));
    } else {
        push_decimal_u64(s, n as u64);
    }
}

/// Appends the `width` least significant hex digits of `n` (`{:0width$x}`
/// for values that fit).
pub fn push_hex_fixed(s: &mut String, n: u64, width: u64)
    ensures
        final(s)@ == old(s)@ + hex_fixed(n as nat, width as nat),
    decreases width,
{
    if width > 0 {
        push_hex_fixed(s, n / 16, width - 1);
        push_char(s, digit(n % 16));
        assert(final(s)@ =~= old(s)@ + hex_fixed(n as nat, width as nat));
    } else {
        assert(final(s)@ =~= old(s)@ + hex_fixed(n as nat, width as nat));
    }
}

/// Appends the hex digits of `n` without leading zeros (`{:x}`).
pub fn push_hex(s: &mut String, n: u64)
    ensures
        final(s)@ == old(s)@ + hex_nat(n as nat),
    decreases n,
{
    if n >= 16 {
        push_hex(s, n / 16);
    }
    push_char(s, digit(n % 16));
    assert(final(s)@ =~= old(s)@ + hex_nat(n as nat));
}

/// A new string holding `t`.
pub fn string_of(t: &str) -> (s: String)
    ensures
        s@ == t@,
{
    String::from_str(t)
}

/// The bytes of an ASCII character sequence.
pub open spec fn ascii_bytes(cs: Seq<char>) -> Seq<u8> {
    Seq::new(cs.len(), |i: int| cs[i] as u8)
}

/// Appends the decimal digits of `n` as ASCII bytes.
pub fn push_decimal_bytes(v: &mut Vec<u8>, n: u64)
    ensures
        final(v)@ == old(v)@ + ascii_bytes(decimal_nat(n as nat)),
    decreases n,
{
    if n >= 10 {
        push_decimal_bytes(v, n / 10);
    }
    let c = digit(n % 10);
    v.push(c as u8);
    assert(final(v)@ =~= old(v)@ + ascii_bytes(decimal_nat(n as nat)));
}

/// The characters of `text`.
pub fn chars_of(text: &str) -> (out: Vec<char>)
    ensures
        out@ == text@,
{
    let mut out: Vec<char> = Vec::new();
    for c in it: text.chars()
        invariant
            out@ == it.seq().take(it.index() as int),
            it.seq() == text@,
    {
        out.push(c);
    }
    out
}

/// Whether `c` is white space in the sense of `char::is_whitespace` (the
/// Unicode `White_Space` property).
pub open spec fn is_white_space(c: char) -> bool {
    let u = c as u32;
    ||| 9 <= u <= 13
    ||| u == 32
    ||| u == 0x85
    ||| u == 0xa0
    ||| u == 0x1680
    ||| 0x2000 <= u <= 0x200a
    ||| u == 0x2028
    ||| u == 0x2029
    ||| u == 0x202f
    ||| u == 0x205f
    ||| u == 0x3000
}

/// Whether `c` is white space (`char::is_whitespace`).
pub fn white_space(c: char) -> (b: bool)
    ensures
        b == is_white_space(c),
{
    let u = c as u32;
    (9 <= u && u <= 13) || u == 32 || u == 0x85 || u == 0xa0 || u == 0x1680 || (0x2000 <= u && u
        <= 0x200a) || u == 0x2028 || u == 0x2029 || u == 0x202f || u == 0x205f || u == 0x3000
}

/// `line` without one trailing carriage return.
pub open spec fn strip_cr(line: Seq<char>) -> Seq<char> {
    if line.len() > 0 && line.last() == '\r' {
        line.drop_last()
    } else {
        line
    }
}

/// The lines of `s` after the partial line `cur`, as `str::lines` gives
/// them: split after each `\n`, which is dropped together with one `\r`
/// before it; a last line without `\n` is kept as it is.
pub open spec fn lines_from(s: Seq<char>, cur: Seq<char>) -> Seq<Seq<char>>
    decreases s.len(),
{
    if s.len() == 0 {
        if cur.len() == 0 {
            Seq::empty()
        } else {
            seq![cur]
        }
    } else if s[0] == '\n' {
        seq![strip_cr(cur)] + lines_from(s.drop_first(), Seq::empty())
    } else {
        lines_from(s.drop_first(), cur.push(s[0]))
    }
}

/// The lines of a text (`str::lines`).
pub open spec fn lines_of(s: Seq<char>) -> Seq<Seq<char>> {
    lines_from(s, Seq::empty())
}

/// Splits text into lines as `str::lines` does.
pub fn split_lines(text: &[char]) -> (lines: Vec<Vec<char>>)
    ensures
        lines@.map_values(|l: Vec<char>| l@) == lines_of(text@),
{
    let mut lines: Vec<Vec<char>> = Vec::new();
    let mut cur: Vec<char> = Vec::new();
    let mut i: usize = 0;
    assert(text@.skip(0) =~= text@);
    assert(cur@ =~= Seq::<char>::empty());
    assert(lines@.map_values(|l: Vec<char>| l@) + lines_of(text@) =~= lines_of(text@));
    while i < text.len()
        invariant
            i <= text@.len(),
            lines@.map_values(|l: Vec<char>| l@) + lines_from(text@.skip(i as int), cur@) == lines_of(
                text@,
            ),
        decreases text@.len() - i,
    {
        let ghost before = lines@.map_values(|l: Vec<char>| l@);
        let ghost rest = text@.skip(i as int);
        assert(rest.drop_first() =~= text@.skip(i + 1));
        let c = text[i];
        let ghost cur0 = cur@;
        if c == '\n' {
            if cur.len() > 0 && cur[cur.len() - 1] == '\r' {
                cur.pop();
            }
            assert(cur@ =~= strip_cr(cur0));
            lines.push(cur);
            cur = Vec::new();
            let ghost line = strip_cr(cur0);
            let ghost next = lines_from(text@.skip(i + 1), Seq::empty());
            assert(lines@.map_values(|l: Vec<char>| l@) =~= before.push(line));
            assert(before.push(line) + next =~= before + (seq![line] + next));
        } else {
            cur.push(c);
        }
        i = i + 1;
    }
    let ghost before = lines@.map_values(|l: Vec<char>| l@);
    if cur.len() > 0 {
        let ghost last = cur@;
        lines.push(cur);
        assert(lines@.map_values(|l: Vec<char>| l@) =~= before + seq![last]);
    } else {
        assert(before + lines_from(Seq::<char>::empty(), cur@) =~= before);
    }
    assert(text@.skip(i as int) =~= Seq::<char>::empty());
    lines
}

/// Whether `c` is an ASCII decimal digit.
pub open spec fn is_digit(c: char) -> bool {
    48 <= c as u32 <= 57
}

/// The value of a string of decimal digits.
pub open spec fn digits_value(d: Seq<char>) -> int
    decreases d.len(),
{
    if d.len() == 0 {
        0
    } else {
        digits_value(d.drop_last()) * 10 + (d.last() as u32 - 48)
    }
}

/// A token without its leading sign, if it has one.
pub open spec fn unsigned_part(t: Seq<char>) -> Seq<char> {
    if t.len() > 0 && (t[0] == '-' || t[0] == '+') {
        t.skip(1)
    } else {
        t
    }
}

/// Whether every character of `d` is a decimal digit.
pub open spec fn all_digits(d: Seq<char>) -> bool {
    forall|i: int| 0 <= i < d.len() ==> #[trigger] is_digit(d[i])
}

/// `str::parse::<i32>`: an optional sign, then at least one decimal digit,
/// the value within the range of `i32`.
pub open spec fn parse_i32(t: Seq<char>) -> Option<i32> {
    if t.len() == 0 {
        None
    } else {
        let digits = unsigned_part(t);
        if digits.len() == 0 || !all_digits(digits) {
            None
        } else if t[0] == '-' {
            if -digits_value(digits) >= i32::MIN {
                Some((-digits_value(digits)) as i32)
            } else {
                None
            }
        } else if digits_value(digits) <= i32::MAX {
            Some(digits_value(digits) as i32)
        } else {
            None
        }
    }
}

proof fn lemma_digits_value_nonneg(d: Seq<char>)
    requires
        all_digits(d),
    ensures
        digits_value(d) >= 0,
    decreases d.len(),
{
    if d.len() > 0 {
        assert(all_digits(d.drop_last()));
        lemma_digits_value_nonneg(d.drop_last());
        assert(is_digit(d[d.len() - 1]));
    }
}

/// Parses a token as `str::parse::<i32>` does.
pub fn parse_token_i32(t: &[char]) -> (r: Option<i32>)
    ensures
        r == parse_i32(t@),
{
    let n = t.len();
    if n == 0 {
        return None;
    }
    let start: usize = if t[0] == '-' || t[0] == '+' {
        1
    } else {
        0
    };
    if start == n {
        assert(unsigned_part(t@).len() == 0);
        return None;
    }
    let ghost digits = unsigned_part(t@);
    assert(digits =~= t@.subrange(start as int, n as int));
    let cap: u64 = 2147483649;
    let mut acc: u64 = 0;
    let mut i: usize = start;
    assert(t@.subrange(start as int, start as int) =~= Seq::<char>::empty());
    while i < n
        invariant
            start <= i <= n,
            n == t@.len(),
            n > 0,
            digits == unsigned_part(t@),
            digits =~= t@.subrange(start as int, n as int),
            forall|k: int| start <= k < i ==> #[trigger] is_digit(t@[k]),
            cap == 2147483649,
            acc <= cap,
            acc as int == if digits_value(t@.subrange(start as int, i as int)) < cap {
                digits_value(t@.subrange(start as int, i as int))
            } else {
                cap as int
            },
        decreases n - i,
    {
        let c = t[i];
        if !((c as u32) >= 48 && (c as u32) <= 57) {
            assert(digits[i - start] == c);
            assert(!is_digit(digits[i - start]));
            assert(!all_digits(digits));
            return None;
        }
        let d = (c as u32 - 48) as u64;
        proof {
            let pre = t@.subrange(start as int, i as int);
            let ext = t@.subrange(start as int, i + 1);
            assert(ext.drop_last() =~= pre);
            assert forall|k: int| 0 <= k < pre.len() implies #[trigger] is_digit(pre[k]) by {
                assert(pre[k] == t@[start + k]);
            }
            lemma_digits_value_nonneg(pre);
        }
        acc = if acc * 10 + d >= cap {
            cap
        } else {
            acc * 10 + d
        };
        i = i + 1;
    }
    assert(t@.subrange(start as int, n as int) =~= digits);
    assert forall|k: int| 0 <= k < digits.len() implies #[trigger] is_digit(digits[k]) by {
        assert(digits[k] == t@[start + k]);
    }
    assert(all_digits(digits));
    proof {
        lemma_digits_value_nonneg(digits);
    }
    if t[0] == '-' {
        if acc <= 2147483648 {
            Some((0 - (acc as i64)) as i32)
        } else {
            None
        }
    } else if acc <= 2147483647 {
        Some(acc as i32)
    } else {
        None
    }
}

/// The value a white-space separated token contributes: its number if it
/// parses, nothing otherwise.
pub open spec fn token_number(tok: Seq<char>) -> Seq<i32> {
    match parse_i32(tok) {
        Some(v) => seq![v],
        None => Seq::empty(),
    }
}

/// The numbers among the white-space separated tokens of `s`, the partial
/// token `tok` before it (`split_whitespace` then `filter_map(parse)`).
pub open spec fn numbers_from(s: Seq<char>, tok: Seq<char>) -> Seq<i32>
    decreases s.len(),
{
    if s.len() == 0 {
        token_number(tok)
    } else if is_white_space(s[0]) {
        token_number(tok) + numbers_from(s.drop_first(), Seq::empty())
    } else {
        numbers_from(s.drop_first(), tok.push(s[0]))
    }
}

/// The numbers among the white-space separated tokens of a line.
pub open spec fn line_numbers(line: Seq<char>) -> Seq<i32> {
    numbers_from(line, Seq::empty())
}

fn push_token(out: &mut Vec<i32>, tok: &Vec<char>)
    ensures
        final(out)@ == old(out)@ + token_number(tok@),
{
    match parse_token_i32(tok.as_slice()) {
        Some(v) => {
            out.push(v);
            assert(final(out)@ =~= old(out)@ + token_number(tok@));
        },
        None => {
            assert(final(out)@ =~= old(out)@ + token_number(tok@));
        },
    }
}

/// The numbers among the white-space separated tokens of a line.
pub fn numbers_in(line: &[char]) -> (nums: Vec<i32>)
    ensures
        nums@ == line_numbers(line@),
{
    let mut nums: Vec<i32> = Vec::new();
    let mut tok: Vec<char> = Vec::new();
    let mut i: usize = 0;
    assert(line@.skip(0) =~= line@);
    assert(nums@ + line_numbers(line@) =~= line_numbers(line@));
    while i < line.len()
        invariant
            i <= line@.len(),
            nums@ + numbers_from(line@.skip(i as int), tok@) == line_numbers(line@),
        decreases line@.len() - i,
    {
        let ghost rest = line@.skip(i as int);
        assert(rest.drop_first() =~= line@.skip(i + 1));
        let c = line[i];
        if white_space(c) {
            let ghost before = nums@;
            let ghost tn = token_number(tok@);
            push_token(&mut nums, &tok);
            tok = Vec::new();
            assert(before + (tn + numbers_from(line@.skip(i + 1), Seq::empty())) =~= nums@
                + numbers_from(line@.skip(i + 1), tok@));
        } else {
            tok.push(c);
        }
        i = i + 1;
    }
    assert(line@.skip(i as int) =~= Seq::<char>::empty());
    push_token(&mut nums, &tok);
    nums
}

/// Whether `s` holds a character other than white space.
pub open spec fn has_visible(s: Seq<char>) -> bool {
    exists|i: int| 0 <= i < s.len() && !is_white_space(#[trigger] s[i])
}

/// Whether `s` holds a character other than white space
/// (`!s.trim().is_empty()`).
pub fn has_visible_char(s: &[char]) -> (b: bool)
    ensures
        b == has_visible(s@),
{
    let mut i: usize = 0;
    while i < s.len()
        invariant
            i <= s@.len(),
            forall|k: int| 0 <= k < i ==> is_white_space(#[trigger] s@[k]),
        decreases s@.len() - i,
    {
        if !white_space(s[i]) {
            return true;
        }
        i = i + 1;
    }
    false
}

/// Whether `s` begins with `prefix`.
pub fn starts_with(s: &[char], prefix: &[char]) -> (b: bool)
    ensures
        b == (prefix@.len() <= s@.len() && s@.subrange(0, prefix@.len() as int) == prefix@),
{
    if prefix.len() > s.len() {
        return false;
    }
    let mut i: usize = 0;
    while i < prefix.len()
        invariant
            prefix@.len() <= s@.len(),
            i <= prefix@.len(),
            forall|k: int| 0 <= k < i ==> s@[k] == prefix@[k],
        decreases prefix@.len() - i,
    {
        if s[i] != prefix[i] {
            assert(s@.subrange(0, prefix@.len() as int)[i as int] != prefix@[i as int]);
            return false;
        }
        i = i + 1;
    }
    assert(s@.subrange(0, prefix@.len() as int) =~= prefix@);
    true
}

/// A string holding the characters of `cs`.
pub fn string_from_chars(cs: &[char]) -> (s: String)
    ensures
        s@ == cs@,
{
    let mut s = String::new();
    let mut i: usize = 0;
    while i < cs.len()
        invariant
            i <= cs@.len(),
            s@ =~= cs@.subrange(0, i as int),
        decreases cs@.len() - i,
    {
        push_char(&mut s, cs[i]);
        i = i + 1;
    }
    s
}

/// Whether `l` can stand as a line of its own: it holds no `\n` and does
/// not end with `\r`.
pub open spec fn plain_line(l: Seq<char>) -> bool {
    &&& forall|i: int| 0 <= i < l.len() ==> #[trigger] l[i] != '\n'
    &&& !(l.len() > 0 && l.last() == '\r')
}

/// Whether every one of `lines` is a plain line.
pub open spec fn plain_lines(lines: Seq<Seq<char>>) -> bool {
    forall|i: int| 0 <= i < lines.len() ==> plain_line(#[trigger] lines[i])
}

/// The lines written out, each followed by `\n`.
pub open spec fn joined(lines: Seq<Seq<char>>) -> Seq<char>
    decreases lines.len(),
{
    if lines.len() == 0 {
        Seq::empty()
    } else {
        lines[0] + seq!['\n'] + joined(lines.drop_first())
    }
}

/// A line without `\n` that ends at the next `\n` is one line of the text.
pub proof fn lemma_lines_from_line(a: Seq<char>, b: Seq<char>, cur: Seq<char>)
    requires
        forall|i: int| 0 <= i < a.len() ==> #[trigger] a[i] != '\n',
    ensures
        lines_from(a + seq!['\n'] + b, cur) == seq![strip_cr(cur + a)] + lines_from(b, Seq::empty()),
    decreases a.len(),
{
    let s = a + seq!['\n'] + b;
    if a.len() == 0 {
        assert(s[0] == '\n');
        assert(s.drop_first() =~= b);
        assert(cur + a =~= cur);
    } else {
        assert(s[0] == a[0]);
        assert(s.drop_first() =~= a.drop_first() + seq!['\n'] + b);
        assert forall|i: int| 0 <= i < a.drop_first().len() implies #[trigger] a.drop_first()[i]
            != '\n' by {
            assert(a.drop_first()[i] == a[i + 1]);
        }
        lemma_lines_from_line(a.drop_first(), b, cur.push(a[0]));
        assert(cur.push(a[0]) + a.drop_first() =~= cur + a);
    }
}

/// Plain lines written out are read back as the same lines.
pub proof fn lemma_lines_of_joined(lines: Seq<Seq<char>>)
    requires
        plain_lines(lines),
    ensures
        lines_of(joined(lines)) == lines,
    decreases lines.len(),
{
    if lines.len() == 0 {
        assert(lines =~= Seq::<Seq<char>>::empty());
    } else {
        let first = lines[0];
        assert(plain_line(first));
        lemma_lines_from_line(first, joined(lines.drop_first()), Seq::empty());
        assert(Seq::<char>::empty() + first =~= first);
        assert(plain_lines(lines.drop_first())) by {
            assert forall|i: int| 0 <= i < lines.drop_first().len() implies plain_line(
                #[trigger] lines.drop_first()[i],
            ) by {
                assert(lines.drop_first()[i] == lines[i + 1]);
            }
        }
        lemma_lines_of_joined(lines.drop_first());
        assert(seq![first] + lines.drop_first() =~= lines);
    }
}

/// Writing out two runs of lines is writing out each in turn.
pub proof fn lemma_joined_append(a: Seq<Seq<char>>, b: Seq<Seq<char>>)
    ensures
        joined(a + b) == joined(a) + joined(b),
    decreases a.len(),
{
    if a.len() == 0 {
        assert(a + b =~= b);
        assert(joined(a) + joined(b) =~= joined(b));
    } else {
        assert((a + b)[0] == a[0]);
        assert((a + b).drop_first() =~= a.drop_first() + b);
        lemma_joined_append(a.drop_first(), b);
        assert(a[0] + seq!['\n'] + (joined(a.drop_first()) + joined(b)) =~= (a[0] + seq!['\n']
            + joined(a.drop_first())) + joined(b));
    }
}

/// One line written out.
pub proof fn lemma_joined_one(l: Seq<char>)
    ensures
        joined(seq![l]) == l + seq!['\n'],
{
    let one = seq![l];
    assert(one[0] == l);
    assert(one.drop_first() =~= Seq::<Seq<char>>::empty());
    assert(joined(one.drop_first()) == Seq::<char>::empty());
    assert(l + seq!['\n'] + Seq::<char>::empty() =~= l + seq!['\n']);
}

/// Whether no character of `t` is white space.
pub open spec fn no_white_space(t: Seq<char>) -> bool {
    forall|i: int| 0 <= i < t.len() ==> !is_white_space(#[trigger] t[i])
}

/// Characters without white space extend the token being read.
pub proof fn lemma_numbers_from_token(a: Seq<char>, s: Seq<char>, tok: Seq<char>)
    requires
        no_white_space(a),
    ensures
        numbers_from(a + s, tok) == numbers_from(s, tok + a),
    decreases a.len(),
{
    if a.len() == 0 {
        assert(a + s =~= s);
        assert(tok + a =~= tok);
    } else {
        assert((a + s)[0] == a[0]);
        assert((a + s).drop_first() =~= a.drop_first() + s);
        assert(no_white_space(a.drop_first())) by {
            assert forall|i: int| 0 <= i < a.drop_first().len() implies !is_white_space(
                #[trigger] a.drop_first()[i],
            ) by {
                assert(a.drop_first()[i] == a[i + 1]);
            }
        }
        lemma_numbers_from_token(a.drop_first(), s, tok.push(a[0]));
        assert(tok.push(a[0]) + a.drop_first() =~= tok + a);
    }
}

/// The decimal digits of `n` are digits, at least one, and read back as `n`.
pub proof fn lemma_decimal_nat_digits(n: nat)
    ensures
        decimal_nat(n).len() > 0,
        all_digits(decimal_nat(n)),
        digits_value(decimal_nat(n)) == n,
    decreases n,
{
    if n < 10 {
        let d = decimal_nat(n);
        assert(d.drop_last() =~= Seq::<char>::empty());
        assert(digits_value(d.drop_last()) == 0);
        assert(d.last() == digit_char(n as int));
        assert(digit_char(n as int) as u32 == 48 + n);
        assert(is_digit(d[0]));
    } else {
        lemma_decimal_nat_digits(n / 10);
        let d = decimal_nat(n / 10);
        let s = decimal_nat(n);
        assert(s.drop_last() =~= d);
        assert(s.last() == digit_char((n % 10) as int));
        assert(digit_char((n % 10) as int) as u32 == 48 + n % 10);
        assert(digits_value(s) == digits_value(d) * 10 + (n % 10));
        assert((n / 10) * 10 + n % 10 == n);
        assert forall|i: int| 0 <= i < s.len() implies #[trigger] is_digit(s[i]) by {
            if i < d.len() {
                assert(s[i] == d[i]);
            }
        }
    }
}

/// A decimal rendering is read back as its value by `parse_i32`; it holds
/// no white space and begins with a digit or `-`.
pub proof fn lemma_parse_decimal(v: i32)
    ensures
        parse_i32(decimal(v as int)) == Some(v),
        decimal(v as int).len() > 0,
        no_white_space(decimal(v as int)),
        decimal(v as int)[0] == '-' || is_digit(decimal(v as int)[0]),
{
    let t = decimal(v as int);
    if v < 0 {
        let d = decimal_nat((-v) as nat);
        lemma_decimal_nat_digits((-v) as nat);
        assert(t.skip(1) =~= d);
        assert(unsigned_part(t) == d);
        assert forall|i: int| 0 <= i < t.len() implies !is_white_space(#[trigger] t[i]) by {
            if i > 0 {
                assert(t[i] == d[i - 1]);
                assert(is_digit(d[i - 1]));
            }
        }
    } else {
        let d = decimal_nat(v as nat);
        lemma_decimal_nat_digits(v as nat);
        assert(is_digit(d[0]));
        assert(unsigned_part(t) == d);
        assert forall|i: int| 0 <= i < t.len() implies !is_white_space(#[trigger] t[i]) by {
            assert(is_digit(d[i]));
        }
    }
}

} // verus!
