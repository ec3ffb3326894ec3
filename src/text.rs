use vstd::prelude::*;
use vstd::string::*;

verus! {

/// The characters with the Unicode `White_Space` property, which are those
/// for which `char::is_whitespace` holds.
pub open spec fn white_space(c: char) -> bool {
    ||| ('\u{9}' <= c && c <= '\u{d}')
    ||| c == ' '
    ||| c == '\u{85}'
    ||| c == '\u{a0}'
    ||| c == '\u{1680}'
    ||| ('\u{2000}' <= c && c <= '\u{200a}')
    ||| c == '\u{2028}'
    ||| c == '\u{2029}'
    ||| c == '\u{202f}'
    ||| c == '\u{205f}'
    ||| c == '\u{3000}'
}

/// Whether `c` is white space.
fn is_white_space(c: char) -> (r: bool)
    ensures
        r == white_space(c),
{
    ('\u{9}' <= c && c <= '\u{d}') || c == ' ' || c == '\u{85}' || c == '\u{a0}' || c == '\u{1680}'
        || ('\u{2000}' <= c && c <= '\u{200a}') || c == '\u{2028}' || c == '\u{2029}' || c
        == '\u{202f}' || c == '\u{205f}' || c == '\u{3000}'
}

/// `s` without its leading white space.
pub open spec fn trim_start(s: Seq<char>) -> Seq<char>
    decreases s.len(),
{
    if s.len() > 0 && white_space(s[0]) {
        trim_start(s.drop_first())
    } else {
        s
    }
}

/// `s` without its trailing white space.
pub open spec fn trim_end(s: Seq<char>) -> Seq<char>
    decreases s.len(),
{
    if s.len() > 0 && white_space(s.last()) {
        trim_end(s.drop_last())
    } else {
        s
    }
}

/// `s` without leading or trailing white space.
pub open spec fn trim(s: Seq<char>) -> Seq<char> {
    trim_end(trim_start(s))
}

/// The trimmed lines of `t` after a line begun with `cur`: a line ends at a
/// newline or at the end of the text, and a text that ends with a newline has
/// no empty last line.
pub open spec fn lines_from(t: Seq<char>, cur: Seq<char>) -> Seq<Seq<char>>
    decreases t.len(),
{
    if t.len() == 0 {
        if cur.len() == 0 {
            Seq::empty()
        } else {
            seq![trim(cur)]
        }
    } else if t[0] == '\n' {
        seq![trim(cur)] + lines_from(t.drop_first(), Seq::empty())
    } else {
        lines_from(t.drop_first(), cur.push(t[0]))
    }
}

/// The trimmed lines of `t`.
pub open spec fn split_lines(t: Seq<char>) -> Seq<Seq<char>> {
    lines_from(t, Seq::empty())
}

/// The characters of `s`, in order.
pub fn chars_of(s: &str) -> (r: Vec<char>)
    ensures
        r@ == s@,
{
    let mut v: Vec<char> = Vec::new();
    for c in it: s.chars()
        invariant
            v@ == it.seq().take(it.index() as int),
    {
        v.push(c);
    }
    v
}

/// The views of a sequence of strings.
pub open spec fn string_views(v: Seq<String>) -> Seq<Seq<char>> {
    v.map_values(|s: String| s@)
}

/// The trimmed text of `chars[a..b]`, where `chars` are the characters of `text`.
fn trimmed_line(text: &str, chars: &Vec<char>, a: usize, b: usize) -> (r: String)
    requires
        chars@ == text@,
        a <= b <= chars@.len(),
    ensures
        r@ == trim(chars@.subrange(a as int, b as int)),
{
    let mut i: usize = a;
    while i < b && is_white_space(chars[i])
        invariant
            a <= i <= b <= chars@.len(),
            trim_start(chars@.subrange(a as int, b as int)) == trim_start(
                chars@.subrange(i as int, b as int),
            ),
        decreases b - i,
    {
        proof {
            assert(chars@.subrange(i as int, b as int).drop_first() =~= chars@.subrange(
                i + 1,
                b as int,
            ));
        }
        i = i + 1;
    }
    proof {
        if i < b {
            assert(chars@.subrange(i as int, b as int)[0] == chars@[i as int]);
        }
        assert(trim_start(chars@.subrange(i as int, b as int)) == chars@.subrange(i as int, b as int));
    }
    let mut j: usize = b;
    while j > i && is_white_space(chars[j - 1])
        invariant
            i <= j <= b <= chars@.len(),
            trim_end(chars@.subrange(i as int, b as int)) == trim_end(
                chars@.subrange(i as int, j as int),
            ),
        decreases j - i,
    {
        proof {
            assert(chars@.subrange(i as int, j as int).drop_last() =~= chars@.subrange(
                i as int,
                j - 1,
            ));
        }
        j = j - 1;
    }
    proof {
        if j > i {
            assert(chars@.subrange(i as int, j as int).last() == chars@[j - 1]);
        }
        assert(trim_end(chars@.subrange(i as int, j as int)) == chars@.subrange(i as int, j as int));
    }
    String::from_str(text.substring_char(i, j))
}

/// Splits `text` into trimmed lines.
pub fn lines_of(text: &str) -> (r: Vec<String>)
    ensures
        string_views(r@) == split_lines(text@),
{
    let chars = chars_of(text);
    let ghost t = chars@;
    let n = chars.len();
    let mut out: Vec<String> = Vec::new();
    let mut start: usize = 0;
    let mut i: usize = 0;
    proof {
        assert(t.subrange(0, n as int) =~= t);
        assert(string_views(out@) =~= Seq::<Seq<char>>::empty());
        assert(t.subrange(0, 0) =~= Seq::<char>::empty());
        assert(split_lines(t) =~= string_views(out@) + lines_from(t.subrange(i as int, n as int), t.subrange(start as int, i as int)));
    }
    while i < n
        invariant
            chars@ == t,
            t == text@,
            n == t.len(),
            start <= i <= n,
            split_lines(t) == string_views(out@) + lines_from(
                t.subrange(i as int, n as int),
                t.subrange(start as int, i as int),
            ),
        decreases n - i,
    {
        let ghost rest = t.subrange(i as int, n as int);
        let ghost cur = t.subrange(start as int, i as int);
        proof {
            assert(rest[0] == t[i as int]);
            assert(rest.drop_first() =~= t.subrange(i + 1, n as int));
        }
        if chars[i] == '\n' {
            let line = trimmed_line(text, &chars, start, i);
            let ghost before = string_views(out@);
            out.push(line);
            proof {
                assert(string_views(out@) =~= before.push(line@));
                assert(t.subrange(i + 1, i + 1) =~= Seq::<char>::empty());
                assert(split_lines(t) =~= string_views(out@) + lines_from(
                    t.subrange(i + 1, n as int),
                    t.subrange(i + 1, i + 1),
                ));
            }
            start = i + 1;
        } else {
            proof {
                assert(cur.push(t[i as int]) =~= t.subrange(start as int, i + 1));
            }
        }
        i = i + 1;
    }
    if start < n {
        let line = trimmed_line(text, &chars, start, n);
        let ghost before = string_views(out@);
        out.push(line);
        proof {
            assert(string_views(out@) =~= before.push(line@));
            assert(t.subrange(n as int, n as int) =~= Seq::<char>::empty());
            assert(split_lines(t) =~= string_views(out@));
        }
    } else {
        proof {
            assert(t.subrange(n as int, n as int) =~= Seq::<char>::empty());
            assert(t.subrange(start as int, n as int) =~= Seq::<char>::empty());
            assert(split_lines(t) =~= string_views(out@));
        }
    }
    out
}

/// `c` is an ASCII decimal digit.
pub open spec fn is_digit(c: char) -> bool {
    '0' <= c && c <= '9'
}

/// The value of a decimal digit.
pub open spec fn digit_value(c: char) -> int {
    (c as int) - ('0' as int)
}

/// The digit character for `d`, which is below ten.
pub open spec fn digit_char(d: int) -> char {
    (d + ('0' as int)) as char
}

/// The value of a string of decimal digits, most significant first.
pub open spec fn digits_value(s: Seq<char>) -> int
    decreases s.len(),
{
    if s.len() == 0 {
        0
    } else {
        digits_value(s.drop_last()) * 10 + digit_value(s.last())
    }
}

/// Every character of `s` is a decimal digit.
pub open spec fn all_digits(s: Seq<char>) -> bool {
    forall|i: int| 0 <= i < s.len() ==> is_digit(#[trigger] s[i])
}

/// The decimal form of `n`, without sign or leading zeros.
pub open spec fn decimal(n: nat) -> Seq<char>
    decreases n,
{
    if n < 10 {
        seq![digit_char(n as int)]
    } else {
        decimal(n / 10) + seq![digit_char((n % 10) as int)]
    }
}

/// The number that `s` writes as an unsigned 64-bit decimal: an optional
/// `+` and at least one digit, with a value that fits.
pub open spec fn parse_u64(s: Seq<char>) -> Option<u64> {
    let b = if s.len() > 0 && s[0] == '+' {
        s.drop_first()
    } else {
        s
    };
    if b.len() > 0 && all_digits(b) && digits_value(b) <= u64::MAX {
        Some(digits_value(b) as u64)
    } else {
        None
    }
}

/// The one-character string of the digit `d`.
fn digit_str(d: u64) -> (r: &'static str)
    requires
        d < 10,
    ensures
        r@ == seq![digit_char(d as int)],
{
    proof {
        reveal_strlit("0");
        reveal_strlit("1");
        reveal_strlit("2");
        reveal_strlit("3");
        reveal_strlit("4");
        reveal_strlit("5");
        reveal_strlit("6");
        reveal_strlit("7");
        reveal_strlit("8");
        reveal_strlit("9");
    }
    let r = if d == 0 {
        "0"
    } else if d == 1 {
        "1"
    } else if d == 2 {
        "2"
    } else if d == 3 {
        "3"
    } else if d == 4 {
        "4"
    } else if d == 5 {
        "5"
    } else if d == 6 {
        "6"
    } else if d == 7 {
        "7"
    } else if d == 8 {
        "8"
    } else {
        "9"
    };
    assert(r@ =~= seq![digit_char(d as int)]);
    r
}

/// Appends the decimal form of `n` to `out`.
pub fn push_decimal(out: &mut String, n: u64)
    ensures
        final(out)@ == old(out)@ + decimal(n as nat),
    decreases n,
{
    if n >= 10 {
        push_decimal(out, n / 10);
    }
    out.append(digit_str(n % 10));
    proof {
        if n >= 10 {
            assert(final(out)@ =~= old(out)@ + decimal(n as nat));
        } else {
            assert(final(out)@ =~= old(out)@ + decimal(n as nat));
        }
    }
}

/// The value of the decimal digit `c`, if it is one.
fn digit_of(c: char) -> (r: Option<u64>)
    ensures
        match r {
            Some(d) => is_digit(c) && d as int == digit_value(c) && d < 10,
            None => !is_digit(c),
        },
{
    if '0' <= c && c <= '9' {
        Some((c as u32 - '0' as u32) as u64)
    } else {
        None
    }
}

/// The value of a digit string never drops as digits are added.
proof fn lemma_digits_prefix(s: Seq<char>, k: int)
    requires
        all_digits(s),
        0 <= k <= s.len(),
    ensures
        0 <= digits_value(s.subrange(0, k)) <= digits_value(s),
    decreases s.len(),
{
    if k == s.len() {
        assert(s.subrange(0, k) =~= s);
        lemma_digits_nonneg(s);
    } else {
        let t = s.drop_last();
        assert(t.subrange(0, k) =~= s.subrange(0, k));
        lemma_digits_prefix(t, k);
        assert(is_digit(s[s.len() - 1]));
    }
}

proof fn lemma_digits_nonneg(s: Seq<char>)
    requires
        all_digits(s),
    ensures
        digits_value(s) >= 0,
    decreases s.len(),
{
    if s.len() > 0 {
        lemma_digits_nonneg(s.drop_last());
        assert(is_digit(s[s.len() - 1]));
    }
}

/// Reads an unsigned 64-bit decimal number.
pub fn parse_priority(s: &str) -> (r: Option<u64>)
    ensures
        r == parse_u64(s@),
{
    let cs = chars_of(s);
    let ghost b = if s@.len() > 0 && s@[0] == '+' {
        s@.drop_first()
    } else {
        s@
    };
    let mut start: usize = 0;
    if cs.len() > 0 && cs[0] == '+' {
        start = 1;
    }
    proof {
        assert(b =~= cs@.subrange(start as int, cs@.len() as int));
    }
    if start >= cs.len() {
        return None;
    }
    let mut v: u64 = 0;
    let mut i: usize = start;
    proof {
        assert(cs@.subrange(start as int, start as int) =~= Seq::<char>::empty());
    }
    while i < cs.len()
        invariant
            start <= i <= cs@.len(),
            cs@ == s@,
            b == cs@.subrange(start as int, cs@.len() as int),
            b == (if s@.len() > 0 && s@[0] == '+' {
                s@.drop_first()
            } else {
                s@
            }),
            b.len() > 0,
            v as int == digits_value(cs@.subrange(start as int, i as int)),
            all_digits(cs@.subrange(start as int, i as int)),
        decreases cs.len() - i,
    {
        let ghost pre = cs@.subrange(start as int, i as int);
        let ghost next = cs@.subrange(start as int, i + 1);
        proof {
            assert(next.drop_last() =~= pre);
            assert(next.last() == cs@[i as int]);
            assert(b[i - start] == cs@[i as int]);
        }
        match digit_of(cs[i]) {
            None => {
                return None;
            },
            Some(d) => {
                if v > (u64::MAX - d) / 10 {
                    proof {
                        assert(v * 10 + d > u64::MAX) by (nonlinear_arith)
                            requires
                                v > (u64::MAX - d) / 10,
                                d < 10,
                        ;
                        if all_digits(b) {
                            assert(next =~= b.subrange(0, i + 1 - start));
                            lemma_digits_prefix(b, i + 1 - start);
                        }
                    }
                    return None;
                }
                proof {
                    assert(v * 10 + d <= u64::MAX) by (nonlinear_arith)
                        requires
                            v <= (u64::MAX - d) / 10,
                            d < 10,
                    ;
                }
                v = v * 10 + d;
            },
        }
        i = i + 1;
    }
    proof {
        assert(cs@.subrange(start as int, i as int) =~= b);
    }
    Some(v)
}

/// `a` comes before `b` in character order, a proper prefix first.
pub open spec fn seq_lt(a: Seq<char>, b: Seq<char>) -> bool
    decreases a.len(),
{
    if a.len() == 0 {
        b.len() > 0
    } else if b.len() == 0 {
        false
    } else if a[0] != b[0] {
        a[0] < b[0]
    } else {
        seq_lt(a.drop_first(), b.drop_first())
    }
}

/// No string comes before itself.
pub proof fn lemma_seq_lt_irreflexive(a: Seq<char>)
    ensures
        !seq_lt(a, a),
    decreases a.len(),
{
    if a.len() > 0 {
        lemma_seq_lt_irreflexive(a.drop_first());
    }
}

/// Character order is transitive.
pub proof fn lemma_seq_lt_transitive(a: Seq<char>, b: Seq<char>, c: Seq<char>)
    requires
        seq_lt(a, b),
        seq_lt(b, c),
    ensures
        seq_lt(a, c),
    decreases a.len(),
{
    if a.len() > 0 && b.len() > 0 && c.len() > 0 && a[0] == b[0] && b[0] == c[0] {
        lemma_seq_lt_transitive(a.drop_first(), b.drop_first(), c.drop_first());
    }
}

/// Of two different strings, one comes before the other.
pub proof fn lemma_seq_lt_total(a: Seq<char>, b: Seq<char>)
    requires
        a != b,
    ensures
        seq_lt(a, b) || seq_lt(b, a),
    decreases a.len(),
{
    if a.len() == 0 || b.len() == 0 {
        if a.len() == 0 && b.len() == 0 {
            assert(a =~= b);
        }
    } else if a[0] == b[0] {
        if a.drop_first() == b.drop_first() {
            assert(a =~= seq![a[0]] + a.drop_first());
            assert(b =~= seq![b[0]] + b.drop_first());
        }
        lemma_seq_lt_total(a.drop_first(), b.drop_first());
    }
}

/// Whether `a` comes before `b` in character order.
pub fn str_lt(a: &str, b: &str) -> (r: bool)
    ensures
        r == seq_lt(a@, b@),
{
    let ac = chars_of(a);
    let bc = chars_of(b);
    let mut i: usize = 0;
    proof {
        assert(ac@.subrange(0, ac@.len() as int) =~= ac@);
        assert(bc@.subrange(0, bc@.len() as int) =~= bc@);
    }
    while i < ac.len() && i < bc.len() && ac[i] == bc[i]
        invariant
            ac@ == a@,
            bc@ == b@,
            i <= ac@.len(),
            i <= bc@.len(),
            seq_lt(a@, b@) == seq_lt(
                ac@.subrange(i as int, ac@.len() as int),
                bc@.subrange(i as int, bc@.len() as int),
            ),
        decreases ac.len() - i,
    {
        proof {
            let x = ac@.subrange(i as int, ac@.len() as int);
            let y = bc@.subrange(i as int, bc@.len() as int);
            assert(x[0] == ac@[i as int]);
            assert(y[0] == bc@[i as int]);
            assert(x.drop_first() =~= ac@.subrange(i + 1, ac@.len() as int));
            assert(y.drop_first() =~= bc@.subrange(i + 1, bc@.len() as int));
        }
        i = i + 1;
    }
    let ghost x = ac@.subrange(i as int, ac@.len() as int);
    let ghost y = bc@.subrange(i as int, bc@.len() as int);
    if i == ac.len() {
        i < bc.len()
    } else if i == bc.len() {
        false
    } else {
        proof {
            assert(x[0] == ac@[i as int]);
            assert(y[0] == bc@[i as int]);
        }
        ac[i] < bc[i]
    }
}

} // verus!
