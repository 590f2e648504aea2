//! Working with text: characters, white space, decimal numbers.

use vstd::prelude::*;

verus! {

/// The characters of `s`.
pub fn chars_of(s: &str) -> (out: Vec<char>)
    ensures
        out@ == s@,
{
    let mut out: Vec<char> = Vec::new();
    for c in it: s.chars()
        invariant
            out@ == it.seq().take(it.index() as int),
    {
        out.push(c);
    }
    out
}

/// The text of a string that may be missing.
pub open spec fn text_of(s: Option<String>) -> Option<Seq<char>> {
    match s {
        Some(t) => Some(t@),
        None => None,
    }
}

/// Appends a character to a string: `String::push`.
#[verifier::external_body]
pub(crate) fn push_char(s: &mut String, c: char)
    ensures
        final(s)@ == old(s)@.push(c),
{
    s.push(c)
}

/// Appends the characters `chars[from..to]` to `s`.
pub fn push_chars(s: &mut String, chars: &Vec<char>, from: usize, to: usize)
    requires
        from <= to <= chars.len(),
    ensures
        final(s)@ == old(s)@ + chars@.subrange(from as int, to as int),
{
    let mut i: usize = from;
    assert(s@ =~= old(s)@ + chars@.subrange(from as int, from as int));
    while i < to
        invariant
            from <= i <= to <= chars.len(),
            s@ == old(s)@ + chars@.subrange(from as int, i as int),
        decreases to - i,
    {
        push_char(s, chars[i]);
        assert(s@ =~= old(s)@ + chars@.subrange(from as int, i + 1));
        i += 1;
    }
}

/// The string of the characters `chars`.
pub fn string_of(chars: &Vec<char>) -> (s: String)
    ensures
        s@ == chars@,
{
    let mut s = String::new();
    push_chars(&mut s, chars, 0, chars.len());
    assert(chars@.subrange(0, chars@.len() as int) =~= chars@);
    assert(Seq::<char>::empty() + chars@ =~= chars@);
    s
}

/// `a` followed by `b`.
pub fn concat(a: &str, b: &str) -> (s: String)
    ensures
        s@ == a@ + b@,
{
    let mut s = a.to_owned();
    let tail = chars_of(b);
    push_chars(&mut s, &tail, 0, tail.len());
    assert(tail@.subrange(0, tail@.len() as int) =~= tail@);
    s
}

/// Whether the two texts are the same.
pub fn same_text(a: &str, b: &str) -> (r: bool)
    ensures
        r == (a@ == b@),
{
    let x = a.to_owned();
    let y = b.to_owned();
    x == y
}

/// The lowercase form of a text, as `str::to_lowercase` gives it.
pub uninterp spec fn lowercase(s: Seq<char>) -> Seq<char>;

/// The lowercase form of `s`: `str::to_lowercase`.
#[verifier::external_body]
pub(crate) fn to_lowercase(s: &str) -> (out: String)
    ensures
        out@ == lowercase(s@),
{
    s.to_lowercase()
}

/// White space, as Unicode defines it (`White_Space`).
pub open spec fn white_space(c: char) -> bool {
    let n = c as u32;
    ||| 0x9 <= n <= 0xD
    ||| n == 0x20
    ||| n == 0x85
    ||| n == 0xA0
    ||| n == 0x1680
    ||| 0x2000 <= n <= 0x200A
    ||| n == 0x2028
    ||| n == 0x2029
    ||| n == 0x202F
    ||| n == 0x205F
    ||| n == 0x3000
}

/// Whether `c` is white space.
pub fn is_space(c: char) -> (b: bool)
    ensures
        b == white_space(c),
{
    let n = c as u32;
    (0x9 <= n && n <= 0xD) || n == 0x20 || n == 0x85 || n == 0xA0 || n == 0x1680 || (0x2000 <= n
        && n <= 0x200A) || n == 0x2028 || n == 0x2029 || n == 0x202F || n == 0x205F || n == 0x3000
}

/// `s` without the white space at its start.
pub open spec fn trim_start(s: Seq<char>) -> Seq<char>
    decreases s.len(),
{
    if s.len() > 0 && white_space(s[0]) {
        trim_start(s.skip(1))
    } else {
        s
    }
}

/// `s` without the white space at its end.
pub open spec fn trim_end(s: Seq<char>) -> Seq<char>
    decreases s.len(),
{
    if s.len() > 0 && white_space(s.last()) {
        trim_end(s.drop_last())
    } else {
        s
    }
}

/// `s` without the white space at its start and at its end.
pub open spec fn trimmed(s: Seq<char>) -> Seq<char> {
    trim_end(trim_start(s))
}

/// The text without the white space at its start and at its end.
pub fn trim(s: &str) -> (out: String)
    ensures
        out@ == trimmed(s@),
{
    let chars = chars_of(s);
    let mut a: usize = 0;
    assert(chars@.skip(0) =~= chars@);
    while a < chars.len() && is_space(chars[a])
        invariant
            a <= chars.len(),
            trim_start(chars@) == trim_start(chars@.skip(a as int)),
        decreases chars.len() - a,
    {
        assert(chars@.skip(a as int).skip(1) =~= chars@.skip(a + 1));
        a += 1;
    }
    assert(trim_start(chars@) == chars@.skip(a as int));
    let mut b: usize = chars.len();
    assert(chars@.subrange(a as int, b as int) =~= chars@.skip(a as int));
    while b > a && is_space(chars[b - 1])
        invariant
            a <= b <= chars.len(),
            trimmed(chars@) == trim_end(chars@.subrange(a as int, b as int)),
        decreases b,
    {
        assert(chars@.subrange(a as int, b as int).drop_last() =~= chars@.subrange(
            a as int,
            b - 1,
        ));
        b -= 1;
    }
    let mut out = String::new();
    push_chars(&mut out, &chars, a, b);
    assert(Seq::<char>::empty() + chars@.subrange(a as int, b as int) =~= chars@.subrange(
        a as int,
        b as int,
    ));
    out
}

/// The decimal digit for `d`.
pub open spec fn digit(d: nat) -> char {
    if d == 0 {
        '0'
    } else if d == 1 {
        '1'
    } else if d == 2 {
        '2'
    } else if d == 3 {
        '3'
    } else if d == 4 {
        '4'
    } else if d == 5 {
        '5'
    } else if d == 6 {
        '6'
    } else if d == 7 {
        '7'
    } else if d == 8 {
        '8'
    } else {
        '9'
    }
}

/// What a decimal digit stands for; nothing for another character.
pub open spec fn digit_value(c: char) -> Option<nat> {
    if c == '0' {
        Some(0nat)
    } else if c == '1' {
        Some(1nat)
    } else if c == '2' {
        Some(2nat)
    } else if c == '3' {
        Some(3nat)
    } else if c == '4' {
        Some(4nat)
    } else if c == '5' {
        Some(5nat)
    } else if c == '6' {
        Some(6nat)
    } else if c == '7' {
        Some(7nat)
    } else if c == '8' {
        Some(8nat)
    } else if c == '9' {
        Some(9nat)
    } else {
        None
    }
}

/// The decimal digits of `n`, without leading zeros.
pub open spec fn digits(n: nat) -> Seq<char>
    decreases n,
{
    if n < 10 {
        seq![digit(n)]
    } else {
        digits(n / 10).push(digit(n % 10))
    }
}

/// Every character is a decimal digit.
pub open spec fn all_digits(s: Seq<char>) -> bool {
    forall|i: int| 0 <= i < s.len() ==> digit_value(#[trigger] s[i]) is Some
}

/// The number that decimal digits stand for.
pub open spec fn number(s: Seq<char>) -> nat
    decreases s.len(),
{
    if s.len() == 0 {
        0
    } else {
        number(s.drop_last()) * 10 + match digit_value(s.last()) {
            Some(d) => d,
            None => 0,
        }
    }
}

/// The number that `s` is the decimal form of: decimal digits, with or
/// without a `+` before them, that stand for a number a `usize` holds.
pub open spec fn parsed(s: Seq<char>) -> Option<usize> {
    let body = if s.len() > 0 && s[0] == '+' {
        s.skip(1)
    } else {
        s
    };
    if body.len() > 0 && all_digits(body) && number(body) <= usize::MAX {
        Some(number(body) as usize)
    } else {
        None
    }
}

fn digit_of(d: usize) -> (c: char)
    requires
        d < 10,
    ensures
        c == digit(d as nat),
{
    if d == 0 {
        '0'
    } else if d == 1 {
        '1'
    } else if d == 2 {
        '2'
    } else if d == 3 {
        '3'
    } else if d == 4 {
        '4'
    } else if d == 5 {
        '5'
    } else if d == 6 {
        '6'
    } else if d == 7 {
        '7'
    } else if d == 8 {
        '8'
    } else {
        '9'
    }
}

fn value_of(c: char) -> (d: Option<usize>)
    ensures
        match d {
            Some(v) => digit_value(c) == Some(v as nat) && v < 10,
            None => digit_value(c) is None,
        },
{
    if c == '0' {
        Some(0)
    } else if c == '1' {
        Some(1)
    } else if c == '2' {
        Some(2)
    } else if c == '3' {
        Some(3)
    } else if c == '4' {
        Some(4)
    } else if c == '5' {
        Some(5)
    } else if c == '6' {
        Some(6)
    } else if c == '7' {
        Some(7)
    } else if c == '8' {
        Some(8)
    } else if c == '9' {
        Some(9)
    } else {
        None
    }
}

/// Appends the decimal digits of `n` to `out`.
pub fn push_decimal(out: &mut Vec<char>, n: usize)
    ensures
        final(out)@ == old(out)@ + digits(n as nat),
    decreases n,
{
    if n >= 10 {
        push_decimal(out, n / 10);
    }
    out.push(digit_of(n % 10));
    assert(out@ =~= old(out)@ + digits(n as nat));
}

/// A number grows with every digit that follows.
pub proof fn lemma_number_grows(s: Seq<char>, k: int)
    requires
        0 <= k <= s.len(),
    ensures
        number(s.take(k)) <= number(s),
    decreases s.len() - k,
{
    if k < s.len() {
        lemma_number_grows(s, k + 1);
        assert(s.take(k + 1).drop_last() == s.take(k));
    } else {
        assert(s.take(k) == s);
    }
}

/// The number that the digits `chars[from..to]` are the decimal form of.
pub fn parse_digits(chars: &Vec<char>, from: usize, to: usize) -> (out: Option<usize>)
    requires
        from <= to <= chars.len(),
    ensures
        out == ({
            let body = chars@.subrange(from as int, to as int);
            if body.len() > 0 && all_digits(body) && number(body) <= usize::MAX {
                Some(number(body) as usize)
            } else {
                None
            }
        }),
{
    let ghost body = chars@.subrange(from as int, to as int);
    if from == to {
        return None;
    }
    let mut acc: usize = 0;
    let mut i: usize = from;
    while i < to
        invariant
            from <= i <= to <= chars.len(),
            body == chars@.subrange(from as int, to as int),
            all_digits(body.take(i - from)),
            acc == number(body.take(i - from)),
        decreases to - i,
    {
        let ghost head = body.take(i - from);
        let ghost more = body.take(i - from + 1);
        assert(more.drop_last() == head);
        assert(more.last() == chars@[i as int]);
        match value_of(chars[i]) {
            None => {
                assert(digit_value(body[i - from]) is None);
                return None;
            },
            Some(d) => {
                if acc > (usize::MAX - d) / 10 {
                    proof {
                        assert(number(more) > usize::MAX);
                        lemma_number_grows(body, i - from + 1);
                    }
                    return None;
                }
                acc = acc * 10 + d;
                assert forall|j: int| 0 <= j < more.len() implies digit_value(
                    #[trigger] more[j],
                ) is Some by {
                    if j < head.len() {
                        assert(head[j] == more[j]);
                    }
                }
            },
        }
        i += 1;
    }
    assert(body.take(i - from) == body);
    Some(acc)
}

/// The number that `chars[from..to]` is the decimal form of.
pub fn parse_range(chars: &Vec<char>, from: usize, to: usize) -> (out: Option<usize>)
    requires
        from <= to <= chars.len(),
    ensures
        out == parsed(chars@.subrange(from as int, to as int)),
{
    let ghost s = chars@.subrange(from as int, to as int);
    if from < to && chars[from] == '+' {
        assert(s.skip(1) =~= chars@.subrange(from + 1, to as int));
        parse_digits(chars, from + 1, to)
    } else {
        parse_digits(chars, from, to)
    }
}

/// The number that `s` is the decimal form of.
pub fn parse_number(s: &str) -> (out: Option<usize>)
    ensures
        out == parsed(s@),
{
    let chars = chars_of(s);
    assert(chars@.subrange(0, chars@.len() as int) =~= chars@);
    parse_range(&chars, 0, chars.len())
}

/// Where `c` first stands in `s` at or after `from`; the length of `s` where
/// it does not.
pub open spec fn position_of(s: Seq<char>, c: char, from: int) -> int
    decreases s.len() - from,
{
    if from >= s.len() {
        s.len() as int
    } else if s[from] == c {
        from
    } else {
        position_of(s, c, from + 1)
    }
}

/// Where `c` first stands in `chars` at or after `from`.
pub fn find_char(chars: &Vec<char>, c: char, from: usize) -> (at: usize)
    requires
        from <= chars.len(),
    ensures
        at == position_of(chars@, c, from as int),
        from <= at <= chars.len(),
{
    let mut i: usize = from;
    while i < chars.len() && chars[i] != c
        invariant
            from <= i <= chars.len(),
            position_of(chars@, c, from as int) == position_of(chars@, c, i as int),
        decreases chars.len() - i,
    {
        i += 1;
    }
    i
}

/// The decimal form of `n`.
pub fn decimal(n: usize) -> (s: String)
    ensures
        s@ == digits(n as nat),
{
    let mut chars: Vec<char> = Vec::new();
    push_decimal(&mut chars, n);
    assert(Seq::<char>::empty() + digits(n as nat) =~= digits(n as nat));
    string_of(&chars)
}

/// `s` with every occurrence of `pattern` turned into `with`, the occurrences
/// found from left to right, none overlapping another.
pub open spec fn replaced(s: Seq<char>, pattern: Seq<char>, with: Seq<char>) -> Seq<char>
    decreases s.len(),
{
    if pattern.len() == 0 || s.len() < pattern.len() {
        s
    } else if s.take(pattern.len() as int) == pattern {
        with + replaced(s.skip(pattern.len() as int), pattern, with)
    } else {
        seq![s[0]] + replaced(s.skip(1), pattern, with)
    }
}

/// Whether `pattern` stands in `chars` at `at`.
pub fn stands_at(chars: &Vec<char>, at: usize, pattern: &Vec<char>) -> (b: bool)
    requires
        at <= chars.len(),
    ensures
        b == (at + pattern.len() <= chars.len() && chars@.skip(at as int).take(
            pattern.len() as int,
        ) == pattern@),
{
    if pattern.len() > chars.len() - at {
        return false;
    }
    let ghost part = chars@.skip(at as int).take(pattern.len() as int);
    let mut k: usize = 0;
    while k < pattern.len()
        invariant
            k <= pattern.len(),
            at + pattern.len() <= chars.len(),
            part == chars@.skip(at as int).take(pattern.len() as int),
            forall|j: int| 0 <= j < k ==> part[j] == pattern@[j],
        decreases pattern.len() - k,
    {
        if chars[at + k] != pattern[k] {
            assert(part[k as int] != pattern@[k as int]);
            return false;
        }
        k += 1;
    }
    assert(part =~= pattern@);
    true
}

/// `chars` with every occurrence of `pattern` turned into `with`.
pub fn replace_all(chars: &Vec<char>, pattern: &Vec<char>, with: &Vec<char>) -> (out: Vec<char>)
    requires
        pattern.len() > 0,
    ensures
        out@ == replaced(chars@, pattern@, with@),
{
    let mut out: Vec<char> = Vec::new();
    let mut i: usize = 0;
    assert(chars@.skip(0) =~= chars@);
    assert(out@ + replaced(chars@.skip(0), pattern@, with@) =~= replaced(
        chars@,
        pattern@,
        with@,
    ));
    while i < chars.len()
        invariant
            i <= chars.len(),
            pattern.len() > 0,
            out@ + replaced(chars@.skip(i as int), pattern@, with@) == replaced(
                chars@,
                pattern@,
                with@,
            ),
        decreases chars.len() - i,
    {
        let ghost rest = chars@.skip(i as int);
        let ghost before = out@;
        if stands_at(chars, i, pattern) {
            let mut k: usize = 0;
            while k < with.len()
                invariant
                    k <= with.len(),
                    out@ == before + with@.take(k as int),
                decreases with.len() - k,
            {
                out.push(with[k]);
                assert(out@ =~= before + with@.take(k + 1));
                k += 1;
            }
            assert(with@.take(k as int) == with@);
            assert(rest.skip(pattern.len() as int) =~= chars@.skip(i + pattern.len()));
            assert(out@ + replaced(chars@.skip(i + pattern.len()), pattern@, with@) =~= before
                + replaced(rest, pattern@, with@));
            i += pattern.len();
        } else {
            out.push(chars[i]);
            assert(rest.skip(1) =~= chars@.skip(i + 1));
            proof {
                if rest.len() < pattern@.len() {
                    // what is left is shorter than the pattern: it stays as it is
                    lemma_replaced_short(rest, pattern@, with@);
                    lemma_replaced_short(rest.skip(1), pattern@, with@);
                    assert(rest =~= seq![rest[0]] + rest.skip(1));
                }
            }
            assert(out@ + replaced(chars@.skip(i + 1), pattern@, with@) =~= before + replaced(
                rest,
                pattern@,
                with@,
            ));
            i += 1;
        }
    }
    assert(out@ + replaced(chars@.skip(i as int), pattern@, with@) =~= out@);
    out
}

/// A text shorter than the pattern holds no occurrence of it.
pub proof fn lemma_replaced_short(s: Seq<char>, pattern: Seq<char>, with: Seq<char>)
    requires
        s.len() < pattern.len(),
    ensures
        replaced(s, pattern, with) == s,
{
}

/// `a` comes before `b` where texts are ordered character by character, by
/// the numbers of the characters; a text comes after its beginnings.
pub open spec fn text_before(a: Seq<char>, b: Seq<char>) -> bool
    decreases a.len(),
{
    if b.len() == 0 {
        false
    } else if a.len() == 0 {
        true
    } else if a[0] != b[0] {
        (a[0] as u32) < (b[0] as u32)
    } else {
        text_before(a.skip(1), b.skip(1))
    }
}

/// Of two different texts one comes before the other.
pub proof fn lemma_text_total(a: Seq<char>, b: Seq<char>)
    ensures
        a == b || text_before(a, b) || text_before(b, a),
        !(text_before(a, b) && text_before(b, a)),
        a == b ==> !text_before(a, b),
    decreases a.len(),
{
    if a.len() == 0 || b.len() == 0 {
        if a.len() == 0 && b.len() == 0 {
            assert(a =~= b);
        }
    } else if a[0] != b[0] {
        vstd::utf8::char_u32_cast(a[0], a[0] as u32);
        vstd::utf8::char_u32_cast(b[0], b[0] as u32);
    } else {
        lemma_text_total(a.skip(1), b.skip(1));
        if a.skip(1) == b.skip(1) {
            assert(a =~= seq![a[0]] + a.skip(1));
            assert(b =~= seq![b[0]] + b.skip(1));
        }
    }
}

/// What comes before a text comes before all that comes after it.
pub proof fn lemma_text_trans(a: Seq<char>, b: Seq<char>, c: Seq<char>)
    requires
        text_before(a, b),
        text_before(b, c),
    ensures
        text_before(a, c),
    decreases a.len(),
{
    if a.len() > 0 && a[0] == b[0] && b[0] == c[0] {
        lemma_text_trans(a.skip(1), b.skip(1), c.skip(1));
    }
}

/// Whether `a` comes before `b`.
pub fn comes_before(a: &Vec<char>, b: &Vec<char>) -> (r: bool)
    ensures
        r == text_before(a@, b@),
{
    let mut i: usize = 0;
    assert(a@.skip(0) =~= a@);
    assert(b@.skip(0) =~= b@);
    while i < a.len() && i < b.len() && a[i] == b[i]
        invariant
            i <= a.len(),
            i <= b.len(),
            text_before(a@, b@) == text_before(a@.skip(i as int), b@.skip(i as int)),
        decreases a.len() - i,
    {
        assert(a@.skip(i as int).skip(1) =~= a@.skip(i + 1));
        assert(b@.skip(i as int).skip(1) =~= b@.skip(i + 1));
        i += 1;
    }
    if i >= b.len() {
        false
    } else if i >= a.len() {
        true
    } else {
        (a[i] as u32) < (b[i] as u32)
    }
}

/// Each text comes before the next.
pub open spec fn texts_ascending(s: Seq<String>) -> bool {
    forall|i: int, j: int| 0 <= i < j < s.len() ==> text_before(s[i]@, s[j]@)
}

/// `t` is one of the texts.
pub open spec fn has_text(s: Seq<String>, t: Seq<char>) -> bool {
    exists|k: int| 0 <= k < s.len() && (#[trigger] s[k])@ == t
}

/// Puts `x` into an ascending list of texts, unless it is there already.
pub fn insert_text(v: &mut Vec<String>, x: String)
    requires
        texts_ascending(old(v)@),
    ensures
        texts_ascending(final(v)@),
        forall|t: Seq<char>| #[trigger] has_text(final(v)@, t) <==> (t
            == x@ || has_text(old(v)@, t)),
{
    let xs = chars_of(x.as_str());
    let mut i: usize = 0;
    let mut found = false;
    while i < v.len() && !found
        invariant
            i <= v.len(),
            v@ == old(v)@,
            xs@ == x@,
            forall|k: int| 0 <= k < i ==> text_before((#[trigger] v@[k])@, x@),
            found ==> i < v.len() && !text_before(v@[i as int]@, x@),
        decreases v.len() - i + if found { 0int } else { 1int },
    {
        let here = chars_of(v[i].as_str());
        if comes_before(&here, &xs) {
            i += 1;
        } else {
            found = true;
        }
    }
    let ghost before = old(v)@;
    if found {
        let here = chars_of(v[i].as_str());
        proof {
            lemma_text_total(here@, xs@);
        }
        if !comes_before(&xs, &here) {
            // the same text
            assert(before[i as int]@ == x@);
            return ;
        }
    }
    v.insert(i, x);
    proof {
        let after = v@;
        assert(after[i as int]@ == x@);
        assert forall|a: int, b: int| 0 <= a < b < after.len() implies text_before(
            after[a]@,
            after[b]@,
        ) by {
            let a0 = if a < i { a } else { a - 1 };
            let b0 = if b < i { b } else { b - 1 };
            if a == i {
                assert(after[b] == before[b0]);
                if b0 > i {
                    lemma_text_trans(x@, before[i as int]@, before[b0]@);
                }
            } else if b == i {
                assert(after[a] == before[a0]);
            } else {
                assert(after[a] == before[a0] && after[b] == before[b0]);
            }
        }
        assert forall|t: Seq<char>| #[trigger] has_text(after, t) <==> (t == x@ || has_text(
            before,
            t,
        )) by {
            if has_text(after, t) {
                let k = choose|k: int| 0 <= k < after.len() && (#[trigger] after[k])@ == t;
                if k < i {
                    assert(before[k]@ == t);
                } else if k > i {
                    assert(before[k - 1]@ == t);
                }
            }
            if has_text(before, t) {
                let k = choose|k: int| 0 <= k < before.len() && (#[trigger] before[k])@ == t;
                if k < i {
                    assert(after[k]@ == t);
                } else {
                    assert(after[k + 1]@ == t);
                }
            }
        }
    }
}

} // verus!
